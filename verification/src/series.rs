//! Series in a schedule: moving parts of a series into one room, keeping the
//! parts in chronological order, and placing a whole series in consecutive
//! time slots.
use vstd::prelude::*;
use crate::text::chars_of;
use crate::conflict_detection::{
    seq_eq, extract_series_info, has_series_chronological_violation, series_info, series_order_violation,
};
use crate::counts::{schedule_entries, calculate_conflicts, conflicts_of, counts_fit, flat, flat_from, key_of, period_name, period_name_of, same_key, lemma_flat_len};
use crate::model::{ConflictCounts, ConflictType, Minisymposium, slots};
use crate::moves::{apply_swap, at, lemma_flat_entry, lemma_write_at, occurrences, lemma_rearranged_refl, lemma_rearranged_trans, lemma_swap_rearranges, rearranged, swap_at, lemma_slots_well_sized, same_shape, valid_pos, well_sized, write_at};
use crate::optimize::{copy_schedule, keeps_protection, lemma_counts_fit_same_shape, protection_kept};

verus! {

// ===========================================================================
// Moving a part next to its series' room
// ===========================================================================

/// The entries at `p` and `q` are minisymposia of one series.
pub open spec fn same_series_at(ms: Seq<Minisymposium>, sched: Seq<Seq<usize>>, p: (usize, usize), q: (usize, usize)) -> bool {
    &&& at(sched, p) < ms.len()
    &&& at(sched, q) < ms.len()
    &&& key_of(ms[at(sched, p) as int]) is Some
    &&& key_of(ms[at(sched, p) as int]) == key_of(ms[at(sched, q) as int])
}

/// Exchanging the entries at `p1` and `p2` moves the part of a series at
/// `p1` into the slot just before or just after it, into another room that
/// holds a part of the same series.
pub open spec fn consolidating_swap(ms: Seq<Minisymposium>, sched: Seq<Seq<usize>>, p1: (usize, usize), p2: (usize, usize)) -> bool {
    &&& valid_pos(sched, p1)
    &&& valid_pos(sched, p2)
    &&& (p2.0 + 1 == p1.0 || p2.0 == p1.0 + 1)
    &&& p2.1 != p1.1
    &&& exists|q: (usize, usize)| valid_pos(sched, q) && q.1 == p2.1 && #[trigger] same_series_at(ms, sched, p1, q)
}

/// Slot `p1.0 - 1` has room `r`.
pub open spec fn before_has_room(sched: Seq<Seq<usize>>, p1: (usize, usize), r: usize) -> bool {
    p1.0 > 0 && r < sched[p1.0 - 1].len()
}

/// Slot `p1.0 + 1` has room `r`.
pub open spec fn after_has_room(sched: Seq<Seq<usize>>, p1: (usize, usize), r: usize) -> bool {
    p1.0 < usize::MAX && p1.0 + 1 < sched.len() && r < sched[p1.0 + 1].len()
}

/// The part at `p` has a part of its series at `q`, in another room, and
/// the slot before or after `p` has that room.
pub open spec fn target_ok(ms: Seq<Minisymposium>, sched: Seq<Seq<usize>>, p: (usize, usize), q: (usize, usize)) -> bool {
    &&& valid_pos(sched, p)
    &&& valid_pos(sched, q)
    &&& q.1 != p.1
    &&& same_series_at(ms, sched, p, q)
    &&& (before_has_room(sched, p, q.1) || after_has_room(sched, p, q.1))
}

/// Position `a` comes before position `b`: by slot, then by room.
pub open spec fn pos_before(a: (usize, usize), b: (usize, usize)) -> bool {
    a.0 < b.0 || (a.0 == b.0 && a.1 < b.1)
}

/// `q` is the first position (by slot, then room) that `target_ok` accepts
/// for `p`.
pub open spec fn first_target(ms: Seq<Minisymposium>, sched: Seq<Seq<usize>>, p: (usize, usize), q: (usize, usize)) -> bool {
    &&& target_ok(ms, sched, p, q)
    &&& forall|q2: (usize, usize)| #[trigger] pos_before(q2, q) ==> !target_ok(ms, sched, p, q2)
}

/// The part at `p` has some target.
pub open spec fn has_target(ms: Seq<Minisymposium>, sched: Seq<Seq<usize>>, p: (usize, usize)) -> bool {
    exists|q: (usize, usize)| #[trigger] target_ok(ms, sched, p, q)
}

/// `p` is the first position (by slot, then room) whose part has a target.
pub open spec fn first_source(ms: Seq<Minisymposium>, sched: Seq<Seq<usize>>, p: (usize, usize)) -> bool {
    &&& has_target(ms, sched, p)
    &&& forall|p2: (usize, usize)| #[trigger] pos_before(p2, p) ==> !has_target(ms, sched, p2)
}

/// Where the part at `p` goes for the target `q`: the slot before if it has
/// the room, else the slot after.
pub open spec fn target_of(sched: Seq<Seq<usize>>, p: (usize, usize), q: (usize, usize)) -> (usize, usize) {
    if before_has_room(sched, p, q.1) {
        ((p.0 - 1) as usize, q.1)
    } else {
        ((p.0 + 1) as usize, q.1)
    }
}

/// The exchange that `find_series_room_swap` chooses: for the first part
/// with a target and its first target, the part and where it goes.
pub open spec fn first_room_swap(ms: Seq<Minisymposium>, sched: Seq<Seq<usize>>) -> Option<((usize, usize), (usize, usize))> {
    if exists|p: (usize, usize), q: (usize, usize)| first_source(ms, sched, p) && #[trigger] first_target(ms, sched, p, q) {
        let (p, q) = choose|p: (usize, usize), q: (usize, usize)|
            first_source(ms, sched, p) && #[trigger] first_target(ms, sched, p, q);
        Some((p, target_of(sched, p, q)))
    } else {
        None
    }
}

proof fn lemma_pos_total(a: (usize, usize), b: (usize, usize))
    ensures
        a == b || pos_before(a, b) || pos_before(b, a),
{
}

proof fn lemma_first_room_swap(ms: Seq<Minisymposium>, sched: Seq<Seq<usize>>, p: (usize, usize), q: (usize, usize))
    requires
        first_source(ms, sched, p),
        first_target(ms, sched, p, q),
    ensures
        first_room_swap(ms, sched) == Some((p, target_of(sched, p, q))),
{
    let (p2, q2) = choose|p2: (usize, usize), q2: (usize, usize)|
        first_source(ms, sched, p2) && #[trigger] first_target(ms, sched, p2, q2);
    lemma_pos_total(p, p2);
    if pos_before(p, p2) {
        assert(!has_target(ms, sched, p));
    }
    if pos_before(p2, p) {
        assert(!has_target(ms, sched, p2));
    }
    assert(p == p2);
    lemma_pos_total(q, q2);
    if pos_before(q, q2) {
        assert(!target_ok(ms, sched, p, q));
    }
    if pos_before(q2, q) {
        assert(!target_ok(ms, sched, p, q2));
    }
}

/// A consolidating exchange for the part at `p1`: for its first target,
/// into the slot before it if that slot has the room, else into the slot
/// after it.
fn adjacent_target(schedule: &Vec<Vec<usize>>, all_sessions: &[Minisymposium], p1: (usize, usize)) -> (r: Option<
    (usize, usize),
>)
    requires
        valid_pos(slots(schedule@), p1),
    ensures
        match r {
            Some(p2) => exists|q: (usize, usize)|
                #[trigger] first_target(all_sessions@, slots(schedule@), p1, q) && p2 == target_of(
                    slots(schedule@),
                    p1,
                    q,
                ),
            None => !has_target(all_sessions@, slots(schedule@), p1),
        },
{
    let ghost sched = slots(schedule@);
    let ghost ms = all_sessions@;
    let (s1, r1) = p1;
    let x = schedule[s1][r1];
    assert(x == at(sched, p1));
    if x >= all_sessions.len() {
        assert forall|q: (usize, usize)| !#[trigger] target_ok(ms, sched, p1, q) by {}
        return None;
    }
    let mut s2: usize = 0;
    while s2 < schedule.len()
        invariant
            sched == slots(schedule@),
            ms == all_sessions@,
            valid_pos(sched, p1),
            s1 == p1.0,
            r1 == p1.1,
            x == at(sched, p1),
            x < ms.len(),
            s2 <= sched.len(),
            s1 < schedule@.len(),
            forall|q: (usize, usize)| q.0 < s2 ==> !#[trigger] target_ok(ms, sched, p1, q),
        decreases schedule.len() - s2,
    {
        let mut r2: usize = 0;
        while r2 < schedule[s2].len()
            invariant
                sched == slots(schedule@),
                ms == all_sessions@,
                valid_pos(sched, p1),
                s1 == p1.0,
                r1 == p1.1,
                x == at(sched, p1),
                x < ms.len(),
                s2 < sched.len(),
                r2 <= sched[s2 as int].len(),
                s1 < schedule@.len(),
                forall|q: (usize, usize)| (q.0 < s2 || (q.0 == s2 && q.1 < r2)) ==> !#[trigger] target_ok(ms, sched, p1, q),
            decreases schedule@[s2 as int]@.len() - r2,
        {
            let y = schedule[s2][r2];
            assert(y == at(sched, (s2, r2)));
            if r2 != r1 && y < all_sessions.len() && same_key(&all_sessions[x], &all_sessions[y]) {
                assert(same_series_at(ms, sched, p1, (s2, r2)));
                if s1 > 0 && r2 < schedule[s1 - 1].len() {
                    proof {
                        assert(target_ok(ms, sched, p1, (s2, r2)));
                        assert forall|q2: (usize, usize)| #[trigger] pos_before(q2, (s2, r2)) implies !target_ok(ms, sched, p1, q2) by {}
                        assert(first_target(ms, sched, p1, (s2, r2)));
                    }
                    return Some((s1 - 1, r2));
                }
                if s1 < schedule.len() - 1 && r2 < schedule[s1 + 1].len() {
                    proof {
                        assert(target_ok(ms, sched, p1, (s2, r2)));
                        assert forall|q2: (usize, usize)| #[trigger] pos_before(q2, (s2, r2)) implies !target_ok(ms, sched, p1, q2) by {}
                        assert(first_target(ms, sched, p1, (s2, r2)));
                    }
                    return Some((s1 + 1, r2));
                }
            }
            proof {
                assert(!target_ok(ms, sched, p1, (s2, r2)));
                assert forall|q: (usize, usize)| (q.0 < s2 || (q.0 == s2 && q.1 < r2 + 1)) implies !#[trigger] target_ok(ms, sched, p1, q) by {
                    if q.0 == s2 && q.1 == r2 {
                        assert(q == (s2, r2));
                    }
                }
            }
            r2 = r2 + 1;
        }
        proof {
            assert forall|q: (usize, usize)| q.0 < s2 + 1 implies !#[trigger] target_ok(ms, sched, p1, q) by {
                if q.0 == s2 && target_ok(ms, sched, p1, q) {
                    assert(q.1 < sched[s2 as int].len());
                }
            }
        }
        s2 = s2 + 1;
    }
    proof {
        assert forall|q: (usize, usize)| !#[trigger] target_ok(ms, sched, p1, q) by {
            if target_ok(ms, sched, p1, q) {
                assert(q.0 < sched.len());
            }
        }
    }
    None
}

/// The target of a part gives a consolidating exchange.
proof fn lemma_target_consolidates(ms: Seq<Minisymposium>, sched: Seq<Seq<usize>>, p: (usize, usize), q: (usize, usize))
    requires
        target_ok(ms, sched, p, q),
    ensures
        consolidating_swap(ms, sched, p, target_of(sched, p, q)),
{
    let p2 = target_of(sched, p, q);
    assert(p2.1 == q.1);
    if before_has_room(sched, p, q.1) {
        assert(p2.0 + 1 == p.0);
    } else {
        assert(after_has_room(sched, p, q.1));
        assert(p2.0 == p.0 + 1);
    }
    assert(valid_pos(sched, p2));
    assert(valid_pos(sched, q) && q.1 == p2.1 && same_series_at(ms, sched, p, q));
}

/// A consolidating exchange gives its part a target.
proof fn lemma_consolidating_has_target(ms: Seq<Minisymposium>, sched: Seq<Seq<usize>>, p: (usize, usize), p2: (usize, usize))
    requires
        consolidating_swap(ms, sched, p, p2),
    ensures
        has_target(ms, sched, p),
{
    let q = choose|q: (usize, usize)| valid_pos(sched, q) && q.1 == p2.1 && #[trigger] same_series_at(ms, sched, p, q);
    if p2.0 + 1 == p.0 {
        assert(before_has_room(sched, p, q.1));
    } else {
        assert(after_has_room(sched, p, q.1));
    }
    assert(target_ok(ms, sched, p, q));
}

/// An exchange that moves a part of a series spread over several rooms into
/// the slot before or after it, into a room that holds another part of the
/// same series; `None` when no such exchange exists.
pub fn find_series_room_swap(schedule: &Vec<Vec<usize>>, all_sessions: &[Minisymposium]) -> (r: Option<
    ((usize, usize), (usize, usize)),
>)
    ensures
        r == first_room_swap(all_sessions@, slots(schedule@)),
        match r {
            Some((p1, p2)) => consolidating_swap(all_sessions@, slots(schedule@), p1, p2),
            None => forall|p1: (usize, usize), p2: (usize, usize)|
                !#[trigger] consolidating_swap(all_sessions@, slots(schedule@), p1, p2),
        },
{
    let ghost sched = slots(schedule@);
    let ghost ms = all_sessions@;
    let mut s1: usize = 0;
    while s1 < schedule.len()
        invariant
            sched == slots(schedule@),
            ms == all_sessions@,
            s1 <= sched.len(),
            forall|p1: (usize, usize)| p1.0 < s1 ==> !#[trigger] has_target(ms, sched, p1),
        decreases schedule.len() - s1,
    {
        let mut r1: usize = 0;
        while r1 < schedule[s1].len()
            invariant
                sched == slots(schedule@),
                ms == all_sessions@,
                s1 < sched.len(),
                r1 <= sched[s1 as int].len(),
                forall|p1: (usize, usize)| (p1.0 < s1 || (p1.0 == s1 && p1.1 < r1)) ==> !#[trigger] has_target(ms, sched, p1),
            decreases schedule@[s1 as int]@.len() - r1,
        {
            match adjacent_target(schedule, all_sessions, (s1, r1)) {
                Some(p2) => {
                    proof {
                        let q = choose|q: (usize, usize)| #[trigger] first_target(ms, sched, (s1, r1), q) && p2 == target_of(sched, (s1, r1), q);
                        assert(has_target(ms, sched, (s1, r1)));
                        assert forall|p3: (usize, usize)| #[trigger] pos_before(p3, (s1, r1)) implies !has_target(ms, sched, p3) by {}
                        lemma_first_room_swap(ms, sched, (s1, r1), q);
                        lemma_target_consolidates(ms, sched, (s1, r1), q);
                    }
                    return Some(((s1, r1), p2));
                },
                None => {},
            }
            proof {
                assert forall|p1: (usize, usize)| (p1.0 < s1 || (p1.0 == s1 && p1.1 < r1 + 1)) implies !#[trigger] has_target(ms, sched, p1) by {
                    if p1.0 == s1 && p1.1 == r1 {
                        assert(p1 == (s1, r1));
                    }
                }
            }
            r1 = r1 + 1;
        }
        proof {
            assert forall|p1: (usize, usize)| p1.0 < s1 + 1 implies !#[trigger] has_target(ms, sched, p1) by {
                if p1.0 == s1 && has_target(ms, sched, p1) {
                    let q = choose|q: (usize, usize)| #[trigger] target_ok(ms, sched, p1, q);
                    assert(p1.1 < sched[s1 as int].len());
                }
            }
        }
        s1 = s1 + 1;
    }
    proof {
        assert forall|p1: (usize, usize)| !#[trigger] has_target(ms, sched, p1) by {
            if has_target(ms, sched, p1) {
                let q = choose|q: (usize, usize)| #[trigger] target_ok(ms, sched, p1, q);
                assert(p1.0 < s1);
            }
        }
        assert forall|p1: (usize, usize), p2: (usize, usize)| !#[trigger] consolidating_swap(ms, sched, p1, p2) by {
            if consolidating_swap(ms, sched, p1, p2) {
                lemma_consolidating_has_target(ms, sched, p1, p2);
            }
        }
        if exists|p: (usize, usize), q: (usize, usize)| first_source(ms, sched, p) && #[trigger] first_target(ms, sched, p, q) {
            let (p, q) = choose|p: (usize, usize), q: (usize, usize)| first_source(ms, sched, p) && #[trigger] first_target(ms, sched, p, q);
            assert(has_target(ms, sched, p));
        }
    }
    None
}

// ===========================================================================
// Chronological order of series parts
// ===========================================================================

/// Two different minisymposia of the schedule are parts of one series held
/// in the wrong order (a later part in an earlier period).
pub open spec fn chronology_broken(ms: Seq<Minisymposium>, sched: Seq<Seq<usize>>) -> bool {
    exists|p: (usize, usize), q: (usize, usize)|
        valid_pos(sched, p) && valid_pos(sched, q) && at(sched, p) < ms.len() && at(sched, q) < ms.len()
            && at(sched, p) != at(sched, q) && #[trigger] series_order_violation(
            ms[at(sched, p) as int].title@,
            period_name(p.0 as nat),
            ms[at(sched, q) as int].title@,
            period_name(q.0 as nat),
        )
}

/// Whether the entry `x` of slot `s1` and some other minisymposium of the
/// schedule are parts of one series held in the wrong order.
fn breaks_order_with_any(schedule: &Vec<Vec<usize>>, all_sessions: &[Minisymposium], s1: usize, x: usize) -> (r: bool)
    requires
        x < all_sessions@.len(),
    ensures
        r == exists|q: (usize, usize)|
            valid_pos(slots(schedule@), q) && at(slots(schedule@), q) < all_sessions@.len() && x != at(
                slots(schedule@),
                q,
            ) && #[trigger] series_order_violation(
                all_sessions@[x as int].title@,
                period_name(s1 as nat),
                all_sessions@[at(slots(schedule@), q) as int].title@,
                period_name(q.0 as nat),
            ),
{
    let ghost sched = slots(schedule@);
    let ghost ms = all_sessions@;
    let period1 = period_name_of(s1);
    let mut s2: usize = 0;
    while s2 < schedule.len()
        invariant
            sched == slots(schedule@),
            ms == all_sessions@,
            x < ms.len(),
            period1@ == period_name(s1 as nat),
            s2 <= sched.len(),
            forall|q: (usize, usize)|
                valid_pos(sched, q) && q.0 < s2 && at(sched, q) < ms.len() && x != at(sched, q) ==> !#[trigger] series_order_violation(
                    ms[x as int].title@,
                    period_name(s1 as nat),
                    ms[at(sched, q) as int].title@,
                    period_name(q.0 as nat),
                ),
        decreases schedule.len() - s2,
    {
        let period2 = period_name_of(s2);
        let mut r2: usize = 0;
        while r2 < schedule[s2].len()
            invariant
                sched == slots(schedule@),
                ms == all_sessions@,
                x < ms.len(),
                period1@ == period_name(s1 as nat),
                period2@ == period_name(s2 as nat),
                s2 < sched.len(),
                r2 <= sched[s2 as int].len(),
                forall|q: (usize, usize)|
                    valid_pos(sched, q) && (q.0 < s2 || (q.0 == s2 && q.1 < r2)) && at(sched, q) < ms.len() && x
                        != at(sched, q) ==> !#[trigger] series_order_violation(
                        ms[x as int].title@,
                        period_name(s1 as nat),
                        ms[at(sched, q) as int].title@,
                        period_name(q.0 as nat),
                    ),
            decreases schedule@[s2 as int]@.len() - r2,
        {
            let y = schedule[s2][r2];
            assert(y == at(sched, (s2, r2)));
            if y < all_sessions.len() && x != y {
                if has_series_chronological_violation(
                    all_sessions[x].title.as_str(),
                    period1,
                    all_sessions[y].title.as_str(),
                    period2,
                ) {
                    return true;
                }
            }
            r2 = r2 + 1;
        }
        s2 = s2 + 1;
    }
    false
}

/// Whether two different minisymposia of the schedule are parts of one
/// series held in the wrong chronological order.
pub fn has_chronology_violation(schedule: &Vec<Vec<usize>>, all_sessions: &[Minisymposium]) -> (r: bool)
    ensures
        r == chronology_broken(all_sessions@, slots(schedule@)),
{
    let ghost sched = slots(schedule@);
    let ghost ms = all_sessions@;
    let mut s1: usize = 0;
    while s1 < schedule.len()
        invariant
            sched == slots(schedule@),
            ms == all_sessions@,
            s1 <= sched.len(),
            forall|p: (usize, usize), q: (usize, usize)|
                valid_pos(sched, p) && p.0 < s1 && valid_pos(sched, q) && at(sched, p) < ms.len() && at(sched, q)
                    < ms.len() && at(sched, p) != at(sched, q) ==> !#[trigger] series_order_violation(
                    ms[at(sched, p) as int].title@,
                    period_name(p.0 as nat),
                    ms[at(sched, q) as int].title@,
                    period_name(q.0 as nat),
                ),
        decreases schedule.len() - s1,
    {
        let mut r1: usize = 0;
        while r1 < schedule[s1].len()
            invariant
                sched == slots(schedule@),
                ms == all_sessions@,
                s1 < sched.len(),
                r1 <= sched[s1 as int].len(),
                forall|p: (usize, usize), q: (usize, usize)|
                    valid_pos(sched, p) && (p.0 < s1 || (p.0 == s1 && p.1 < r1)) && valid_pos(sched, q) && at(
                        sched,
                        p,
                    ) < ms.len() && at(sched, q) < ms.len() && at(sched, p) != at(sched, q)
                        ==> !#[trigger] series_order_violation(
                        ms[at(sched, p) as int].title@,
                        period_name(p.0 as nat),
                        ms[at(sched, q) as int].title@,
                        period_name(q.0 as nat),
                    ),
            decreases schedule@[s1 as int]@.len() - r1,
        {
            let x = schedule[s1][r1];
            assert(x == at(sched, (s1, r1)));
            if x < all_sessions.len() {
                if breaks_order_with_any(schedule, all_sessions, s1, x) {
                    proof {
                        let q = choose|q: (usize, usize)|
                            valid_pos(sched, q) && at(sched, q) < ms.len() && x != at(sched, q)
                                && #[trigger] series_order_violation(
                                ms[x as int].title@,
                                period_name(s1 as nat),
                                ms[at(sched, q) as int].title@,
                                period_name(q.0 as nat),
                            );
                        assert(valid_pos(sched, (s1, r1)));
                        assert(series_order_violation(
                            ms[at(sched, (s1, r1)) as int].title@,
                            period_name((s1, r1).0 as nat),
                            ms[at(sched, q) as int].title@,
                            period_name(q.0 as nat),
                        ));
                    }
                    return true;
                }
            }
            r1 = r1 + 1;
        }
        s1 = s1 + 1;
    }
    false
}

// ===========================================================================
// The parts of a series
// ===========================================================================

/// The series base title and part number of the minisymposium of entry `e`
/// (slot, room, minisymposium), if its title names a part of a series.
pub open spec fn entry_series(ms: Seq<Minisymposium>, e: (usize, usize, usize)) -> Option<(Seq<char>, nat)> {
    if e.2 < ms.len() {
        series_info(ms[e.2 as int].title@)
    } else {
        None
    }
}

/// Where a part `e` goes in parts sorted by part number: after every part
/// whose number is not larger.
pub open spec fn ins_point(s: Seq<(usize, usize, usize, usize)>, e: (usize, usize, usize, usize)) -> int
    decreases s.len(),
{
    if s.len() == 0 {
        0
    } else if s.last().2 <= e.2 {
        s.len() as int
    } else {
        ins_point(s.drop_last(), e)
    }
}

/// The parts `(slot, room, part number, minisymposium)` of series `base`
/// among the first `end` entries, sorted by part number; parts with equal
/// numbers keep their schedule order.
pub open spec fn series_parts_upto(
    ms: Seq<Minisymposium>,
    fl: Seq<(usize, usize, usize)>,
    base: Seq<char>,
    end: nat,
) -> Seq<(usize, usize, usize, usize)>
    decreases end,
{
    if end == 0 {
        Seq::empty()
    } else {
        let prev = series_parts_upto(ms, fl, base, (end - 1) as nat);
        let e = fl[end - 1];
        match entry_series(ms, e) {
            Some(info) => if info.0 == base {
                let p = (e.0, e.1, info.1 as usize, e.2);
                prev.insert(ins_point(prev, p), p)
            } else {
                prev
            },
            None => prev,
        }
    }
}

/// The parts of series `base` in the schedule, sorted by part number.
pub open spec fn series_parts(ms: Seq<Minisymposium>, sched: Seq<Seq<usize>>, base: Seq<char>) -> Seq<
    (usize, usize, usize, usize),
> {
    series_parts_upto(ms, flat(sched), base, flat(sched).len())
}

/// The distance between two slots as the slots are compared: each read as a
/// 32-bit signed integer.
pub open spec fn slot_distance(t1: usize, t2: usize) -> int {
    let d = (t1 as i32) as int - (t2 as i32) as int;
    if d < 0 {
        -d
    } else {
        d
    }
}

/// Two consecutive parts (numbers one apart) are not in adjacent slots.
pub open spec fn has_gap(parts: Seq<(usize, usize, usize, usize)>) -> bool {
    exists|i: int|
        0 <= i < parts.len() - 1 && parts[i + 1].2 == parts[i].2 + 1 && #[trigger] slot_distance(
            parts[i].0,
            parts[i + 1].0,
        ) != 1
}

/// Inserts part `e` into `v`, sorted by part number, after every part whose
/// number is not larger.
#[verifier::spinoff_prover]
fn insert_part(v: &mut Vec<(usize, usize, usize, usize)>, e: (usize, usize, usize, usize))
    ensures
        final(v)@ == old(v)@.insert(ins_point(old(v)@, e), e),
{
    let ghost s = v@;
    let mut p: usize = v.len();
    assert(s.take(p as int) =~= s);
    while p > 0 && v[p - 1].2 > e.2
        invariant
            v@ == s,
            p <= s.len(),
            ins_point(s, e) == ins_point(s.take(p as int), e),
        decreases p,
    {
        proof {
            let t = s.take(p as int);
            assert(t.drop_last() =~= s.take(p - 1));
        }
        p = p - 1;
    }
    proof {
        assert(s.take(0) =~= Seq::<(usize, usize, usize, usize)>::empty());
    }
    v.insert(p, e);
}

/// The parts of the series `base` among the entries `fl`, given the series
/// information `infos` of each entry, sorted by part number.
fn collect_parts(
    fl: &Vec<(usize, usize, usize)>,
    infos: &Vec<Option<(String, usize)>>,
    base: &String,
    all_sessions: &[Minisymposium],
) -> (r: Vec<(usize, usize, usize, usize)>)
    requires
        infos@.len() == fl@.len(),
        forall|k: int|
            0 <= k < fl@.len() ==> match #[trigger] infos@[k] {
                Some(x) => entry_series(all_sessions@, fl@[k]) == Some((x.0@, x.1 as nat)),
                None => entry_series(all_sessions@, fl@[k]) is None,
            },
    ensures
        r@ == series_parts_upto(all_sessions@, fl@, base@, fl@.len()),
{
    let mut parts: Vec<(usize, usize, usize, usize)> = Vec::new();
    let mut k: usize = 0;
    while k < fl.len()
        invariant
            k <= fl@.len(),
            infos@.len() == fl@.len(),
            forall|k: int|
                0 <= k < fl@.len() ==> match #[trigger] infos@[k] {
                    Some(x) => entry_series(all_sessions@, fl@[k]) == Some((x.0@, x.1 as nat)),
                    None => entry_series(all_sessions@, fl@[k]) is None,
                },
            parts@ == series_parts_upto(all_sessions@, fl@, base@, k as nat),
        decreases fl.len() - k,
    {
        let e = fl[k];
        match &infos[k] {
            Some(x) => {
                if x.0 == *base {
                    insert_part(&mut parts, (e.0, e.1, x.1, e.2));
                }
            },
            None => {},
        }
        k = k + 1;
    }
    parts
}

/// Whether two consecutive parts (numbers one apart) are not in adjacent
/// slots.
fn parts_have_gap(parts: &Vec<(usize, usize, usize, usize)>) -> (r: bool)
    ensures
        r == has_gap(parts@),
{
    let mut i: usize = 0;
    while parts.len() > 0 && i < parts.len() - 1
        invariant
            forall|j: int|
                0 <= j < i && j < parts@.len() - 1 ==> !(parts@[j + 1].2 == parts@[j].2 + 1 && #[trigger] slot_distance(
                    parts@[j].0,
                    parts@[j + 1].0,
                ) != 1),
        decreases parts.len() - i,
    {
        let (time1, _, part1, _) = parts[i];
        let (time2, _, part2, _) = parts[i + 1];
        if part2 > part1 && part2 - part1 == 1 {
            let d = (time1 as i32) as i64 - (time2 as i32) as i64;
            let time_diff = if d < 0 { -d } else { d };
            assert(time_diff == slot_distance(time1, time2));
            if time_diff != 1 {
                return true;
            }
        }
        i = i + 1;
    }
    false
}

// ===========================================================================
// Placing a whole series in consecutive slots
// ===========================================================================

/// Every part names a position of the schedule and the minisymposium held
/// there.
pub open spec fn parts_in_place(sched: Seq<Seq<usize>>, parts: Seq<(usize, usize, usize, usize)>) -> bool {
    forall|j: int|
        0 <= j < parts.len() ==> valid_pos(sched, (#[trigger] parts[j].0, parts[j].1)) && at(
            sched,
            (parts[j].0, parts[j].1),
        ) == parts[j].3
}

/// The parts of a series are where they say they are.
pub proof fn lemma_series_parts_in_place(ms: Seq<Minisymposium>, sched: Seq<Seq<usize>>, base: Seq<char>, end: nat)
    requires
        well_sized(sched),
        end <= flat(sched).len(),
    ensures
        parts_in_place(sched, series_parts_upto(ms, flat(sched), base, end)),
    decreases end,
{
    if end > 0 {
        lemma_series_parts_in_place(ms, sched, base, (end - 1) as nat);
        lemma_flat_len(sched, sched.len());
        lemma_flat_entry(sched, sched.len(), end - 1);
        let prev = series_parts_upto(ms, flat(sched), base, (end - 1) as nat);
        let e = flat(sched)[end - 1];
        match entry_series(ms, e) {
            Some(info) => {
                if info.0 == base {
                    let p = (e.0, e.1, info.1 as usize, e.2);
                    let i = ins_point(prev, p);
                    lemma_ins_point_range(prev, p);
                    let cur = prev.insert(i, p);
                    assert forall|j: int| 0 <= j < cur.len() implies valid_pos(sched, (#[trigger] cur[j].0, cur[j].1))
                        && at(sched, (cur[j].0, cur[j].1)) == cur[j].3 by {
                        if j < i {
                            assert(cur[j] == prev[j]);
                        } else if j > i {
                            assert(cur[j] == prev[j - 1]);
                        }
                    }
                }
            },
            None => {},
        }
    }
}

/// Entries of the schedule come slot by slot and room by room, so no two
/// name the same position.
proof fn lemma_flat_positions_distinct(sched: Seq<Seq<usize>>, end: nat)
    requires
        end <= sched.len(),
        well_sized(sched),
    ensures
        forall|i: int, j: int|
            0 <= i < j < flat_from(sched, end).len() ==> ((#[trigger] flat_from(sched, end)[i]).0 < (
            #[trigger] flat_from(sched, end)[j]).0 || (flat_from(sched, end)[i].0 == flat_from(sched, end)[j].0
                && flat_from(sched, end)[i].1 < flat_from(sched, end)[j].1)),
    decreases end,
{
    if end > 0 {
        lemma_flat_positions_distinct(sched, (end - 1) as nat);
        let prev = flat_from(sched, (end - 1) as nat);
        let cur = flat_from(sched, end);
        assert forall|i: int, j: int| 0 <= i < j < cur.len() implies ((#[trigger] cur[i]).0 < (#[trigger] cur[j]).0 || (
        cur[i].0 == cur[j].0 && cur[i].1 < cur[j].1)) by {
            if j < prev.len() {
                assert(cur[i] == prev[i]);
                assert(cur[j] == prev[j]);
            } else if i < prev.len() {
                lemma_flat_entry(sched, (end - 1) as nat, i);
                assert(cur[i] == prev[i]);
                assert(cur[j].0 == end - 1);
            } else {
                assert(cur[i].1 == i - prev.len());
                assert(cur[j].1 == j - prev.len());
            }
        }
    }
}

/// Each part of a series comes from an entry, and no two parts name the same
/// position.
proof fn lemma_series_parts_distinct(ms: Seq<Minisymposium>, sched: Seq<Seq<usize>>, base: Seq<char>, end: nat)
    requires
        well_sized(sched),
        end <= flat(sched).len(),
    ensures
        distinct_positions(series_parts_upto(ms, flat(sched), base, end)),
        forall|i: int|
            0 <= i < series_parts_upto(ms, flat(sched), base, end).len() ==> exists|k: int|
                0 <= k < end && (#[trigger] series_parts_upto(ms, flat(sched), base, end)[i]).0 == flat(sched)[k].0
                    && series_parts_upto(ms, flat(sched), base, end)[i].1 == flat(sched)[k].1 && entry_base(
                    ms,
                    flat(sched)[k],
                ) == Some(base),
    decreases end,
{
    if end > 0 {
        let fl = flat(sched);
        lemma_series_parts_distinct(ms, sched, base, (end - 1) as nat);
        lemma_flat_positions_distinct(sched, sched.len());
        let prev = series_parts_upto(ms, fl, base, (end - 1) as nat);
        let e = fl[end - 1];
        match entry_series(ms, e) {
            Some(info) => {
                if info.0 == base {
                    let p = (e.0, e.1, info.1 as usize, e.2);
                    let ip = ins_point(prev, p);
                    lemma_ins_point_range(prev, p);
                    let cur = prev.insert(ip, p);
                    assert(cur == series_parts_upto(ms, fl, base, end));
                    assert(entry_base(ms, fl[end - 1]) == Some(base));
                    assert forall|i: int| 0 <= i < cur.len() implies exists|k: int|
                        0 <= k < end && (#[trigger] cur[i]).0 == fl[k].0 && cur[i].1 == fl[k].1 && entry_base(
                            ms,
                            fl[k],
                        ) == Some(base) by {
                        if i < ip {
                            assert(cur[i] == prev[i]);
                        } else if i > ip {
                            assert(cur[i] == prev[i - 1]);
                        } else {
                            assert(cur[i].0 == fl[end - 1].0 && cur[i].1 == fl[end - 1].1);
                        }
                    }
                    assert forall|i: int, j: int|
                        0 <= i < cur.len() && 0 <= j < cur.len() && i != j implies (#[trigger] cur[i].0, cur[i].1) != (
                        #[trigger] cur[j].0,
                        cur[j].1,
                    ) by {
                        if i != ip && j != ip {
                            let pi = if i < ip { i } else { i - 1 };
                            let pj = if j < ip { j } else { j - 1 };
                            assert(cur[i] == prev[pi]);
                            assert(cur[j] == prev[pj]);
                        } else {
                            let other = if i == ip { j } else { i };
                            let po = if other < ip { other } else { other - 1 };
                            assert(cur[other] == prev[po]);
                            let k = choose|k: int|
                                0 <= k < end - 1 && (#[trigger] prev[po]).0 == fl[k].0 && prev[po].1 == fl[k].1 && entry_base(
                                    ms,
                                    fl[k],
                                ) == Some(base);
                            assert(fl[k].0 < fl[end - 1].0 || (fl[k].0 == fl[end - 1].0 && fl[k].1 < fl[end - 1].1));
                        }
                    }
                }
            },
            None => {},
        }
    }
}

/// No two parts of a series name the same position.
proof fn lemma_series_parts_positions(ms: Seq<Minisymposium>, sched: Seq<Seq<usize>>, base: Seq<char>)
    requires
        well_sized(sched),
    ensures
        distinct_positions(series_parts(ms, sched, base)),
{
    lemma_series_parts_distinct(ms, sched, base, flat(sched).len());
}

/// No part of the list has a larger part number than a part after it.
pub open spec fn number_ordered(parts: Seq<(usize, usize, usize, usize)>) -> bool {
    forall|a: int, b: int| 0 <= a <= b < parts.len() ==> #[trigger] parts[a].2 <= #[trigger] parts[b].2
}

proof fn lemma_ins_point_splits(s: Seq<(usize, usize, usize, usize)>, e: (usize, usize, usize, usize))
    requires
        number_ordered(s),
    ensures
        0 <= ins_point(s, e) <= s.len(),
        forall|i: int| 0 <= i < ins_point(s, e) ==> #[trigger] s[i].2 <= e.2,
        forall|i: int| ins_point(s, e) <= i < s.len() ==> #[trigger] s[i].2 > e.2,
    decreases s.len(),
{
    if s.len() > 0 {
        let d = s.drop_last();
        if s.last().2 <= e.2 {
            assert forall|i: int| 0 <= i < s.len() implies #[trigger] s[i].2 <= e.2 by {
                assert(s[i].2 <= s[s.len() - 1].2);
            }
        } else {
            assert(number_ordered(d)) by {
                assert forall|a: int, b: int| 0 <= a <= b < d.len() implies #[trigger] d[a].2 <= #[trigger] d[b].2 by {
                    assert(d[a] == s[a] && d[b] == s[b]);
                    assert(s[a].2 <= s[b].2);
                }
            }
            lemma_ins_point_splits(d, e);
            assert forall|i: int| 0 <= i < ins_point(s, e) implies #[trigger] s[i].2 <= e.2 by {
                assert(d[i] == s[i]);
            }
            assert forall|i: int| ins_point(s, e) <= i < s.len() implies #[trigger] s[i].2 > e.2 by {
                if i < d.len() {
                    assert(d[i] == s[i]);
                }
            }
        }
    }
}

/// The parts of a series are listed by part number.
proof fn lemma_series_parts_sorted(ms: Seq<Minisymposium>, fl: Seq<(usize, usize, usize)>, base: Seq<char>, end: nat)
    requires
        end <= fl.len(),
    ensures
        number_ordered(series_parts_upto(ms, fl, base, end)),
    decreases end,
{
    if end > 0 {
        lemma_series_parts_sorted(ms, fl, base, (end - 1) as nat);
        let prev = series_parts_upto(ms, fl, base, (end - 1) as nat);
        let e = fl[end - 1];
        match entry_series(ms, e) {
            Some(info) => {
                if info.0 == base {
                    let p = (e.0, e.1, info.1 as usize, e.2);
                    let ip = ins_point(prev, p);
                    lemma_ins_point_splits(prev, p);
                    let cur = prev.insert(ip, p);
                    assert forall|a: int, b: int| 0 <= a <= b < cur.len() implies #[trigger] cur[a].2 <= #[trigger] cur[b].2 by {
                        let fa = if a < ip { a } else if a == ip { -1 } else { a - 1 };
                        let fb = if b < ip { b } else if b == ip { -1 } else { b - 1 };
                        if fa >= 0 {
                            assert(cur[a] == prev[fa]);
                        }
                        if fb >= 0 {
                            assert(cur[b] == prev[fb]);
                        }
                        if fa >= 0 && fb >= 0 {
                            assert(prev[fa].2 <= prev[fb].2);
                        }
                    }
                }
            },
            None => {},
        }
    }
}

proof fn lemma_ins_point_range(s: Seq<(usize, usize, usize, usize)>, e: (usize, usize, usize, usize))
    ensures
        0 <= ins_point(s, e) <= s.len(),
    decreases s.len(),
{
    if s.len() > 0 {
        lemma_ins_point_range(s.drop_last(), e);
    }
}

/// Room `room` exists in each of the `n` slots from `start`, and is one of
/// the first eight rooms.
pub open spec fn block_fits(sched: Seq<Seq<usize>>, start: int, room: int, n: int) -> bool {
    &&& 0 <= start
    &&& start + n <= sched.len()
    &&& 0 <= room < 8
    &&& forall|i: int| 0 <= i < n ==> room < #[trigger] sched[start + i].len()
}

/// The minisymposia in room `room` of the `n` slots from `start`.
pub open spec fn block_values(sched: Seq<Seq<usize>>, start: int, room: int, n: nat) -> Seq<usize> {
    Seq::new(n, |i: int| sched[start + i][room])
}

/// The minisymposia of the parts.
pub open spec fn part_sessions(parts: Seq<(usize, usize, usize, usize)>) -> Seq<usize> {
    parts.map_values(|p: (usize, usize, usize, usize)| p.3)
}

/// The schedule with the first `n` parts written, in order, into room
/// `room` of the slots from `start`.
pub open spec fn write_block(
    sched: Seq<Seq<usize>>,
    parts: Seq<(usize, usize, usize, usize)>,
    start: int,
    room: int,
    n: nat,
) -> Seq<Seq<usize>>
    decreases n,
{
    if n == 0 {
        sched
    } else {
        write_at(
            write_block(sched, parts, start, room, (n - 1) as nat),
            ((start + n - 1) as usize, room as usize),
            parts[n - 1].3,
        )
    }
}

/// The schedule with `vals[i]` written at the position of part `i`, for the
/// first `n` parts in order.
pub open spec fn write_back(
    sched: Seq<Seq<usize>>,
    parts: Seq<(usize, usize, usize, usize)>,
    vals: Seq<usize>,
    n: nat,
) -> Seq<Seq<usize>>
    decreases n,
{
    if n == 0 {
        sched
    } else {
        write_at(write_back(sched, parts, vals, (n - 1) as nat), (parts[n - 1].0, parts[n - 1].1), vals[n - 1])
    }
}

/// The schedule after placing the series: its parts go, in order, into room
/// `room` of the slots from `start`; then the minisymposia that were there
/// go, in order, to the positions the parts held.
pub open spec fn placed(sched: Seq<Seq<usize>>, parts: Seq<(usize, usize, usize, usize)>, start: int, room: int) -> Seq<
    Seq<usize>,
> {
    write_back(
        write_block(sched, parts, start, room, parts.len()),
        parts,
        block_values(sched, start, room, parts.len()),
        parts.len(),
    )
}

/// No part of the series is held in room `room` of the `n` slots from
/// `start`.
pub open spec fn block_clear(parts: Seq<(usize, usize, usize, usize)>, start: int, room: int, n: int) -> bool {
    forall|j: int|
        0 <= j < parts.len() ==> !((#[trigger] parts[j]).1 == room && start <= parts[j].0 < start + n)
}

/// Placing the series at `(start, room)` is accepted: the block exists,
/// holds none of the series' parts (so the series and the block are
/// exchanged and nothing is lost or repeated) and other minisymposia than
/// the series, and the placement lowers the back-to-back count while
/// keeping the protected counts acceptable.
pub open spec fn acceptable_placement(
    ms: Seq<Minisymposium>,
    sched: Seq<Seq<usize>>,
    parts: Seq<(usize, usize, usize, usize)>,
    start: int,
    room: int,
    old: ConflictCounts,
    protected: Seq<ConflictType>,
    strict: bool,
) -> bool {
    &&& block_fits(sched, start, room, parts.len() as int)
    &&& block_clear(parts, start, room, parts.len() as int)
    &&& block_values(sched, start, room, parts.len()) != part_sessions(parts)
    &&& conflicts_of(ConflictType::SeriesBackToBack, ms, placed(sched, parts, start, room))
        < conflicts_of(ConflictType::SeriesBackToBack, ms, sched)
    &&& keeps_protection(ms, placed(sched, parts, start, room), old, protected, strict)
}

/// How often `x` occurs among the first `n` values of `s`.
spec fn count_upto(s: Seq<usize>, x: usize, n: nat) -> int
    decreases n,
{
    if n == 0 {
        0
    } else {
        count_upto(s, x, (n - 1) as nat) + if s[n - 1] == x {
            1int
        } else {
            0int
        }
    }
}

/// Writing at `p` leaves every other position as it was.
proof fn lemma_write_elsewhere(sched: Seq<Seq<usize>>, p: (usize, usize), v: usize, q: (usize, usize))
    requires
        valid_pos(sched, p),
        valid_pos(sched, q),
        p != q,
    ensures
        at(write_at(sched, p, v), q) == at(sched, q),
{
    if q.0 == p.0 {
        assert(q.1 != p.1);
    }
}

proof fn lemma_write_block_counts(
    sched: Seq<Seq<usize>>,
    parts: Seq<(usize, usize, usize, usize)>,
    start: int,
    room: int,
    n: nat,
    x: usize,
)
    requires
        n <= parts.len(),
        block_fits(sched, start, room, parts.len() as int),
        sched.len() <= usize::MAX,
    ensures
        same_shape(sched, write_block(sched, parts, start, room, n)),
        occurrences(write_block(sched, parts, start, room, n), x) == occurrences(sched, x) + count_upto(
            part_sessions(parts),
            x,
            n,
        ) - count_upto(block_values(sched, start, room, parts.len()), x, n),
        forall|q: (usize, usize)|
            valid_pos(sched, q) && !(q.1 == room && start <= q.0 < start + n) ==> #[trigger] at(
                write_block(sched, parts, start, room, n),
                q,
            ) == at(sched, q),
    decreases n,
{
    if n > 0 {
        lemma_write_block_counts(sched, parts, start, room, (n - 1) as nat, x);
        let prev = write_block(sched, parts, start, room, (n - 1) as nat);
        let pos = ((start + n - 1) as usize, room as usize);
        assert(pos.0 == start + n - 1);
        assert(pos.1 == room);
        assert(room < sched[start + (n - 1)].len());
        assert(valid_pos(sched, pos));
        assert(prev[pos.0 as int].len() == sched[pos.0 as int].len());
        assert(at(prev, pos) == at(sched, pos));
        assert(at(sched, pos) == block_values(sched, start, room, parts.len())[n - 1]);
        assert(part_sessions(parts)[n - 1] == parts[n - 1].3);
        lemma_write_at(prev, pos, parts[n - 1].3, x);
        assert forall|q: (usize, usize)|
            valid_pos(sched, q) && !(q.1 == room && start <= q.0 < start + n) implies #[trigger] at(
            write_block(sched, parts, start, room, n),
            q,
        ) == at(sched, q) by {
            assert(q != pos);
            assert(prev[q.0 as int].len() == sched[q.0 as int].len());
            lemma_write_elsewhere(prev, pos, parts[n - 1].3, q);
        }
    }
}

proof fn lemma_write_back_counts(
    base: Seq<Seq<usize>>,
    parts: Seq<(usize, usize, usize, usize)>,
    vals: Seq<usize>,
    n: nat,
    x: usize,
)
    requires
        n <= parts.len(),
        n <= vals.len(),
        parts_in_place(base, parts),
        distinct_positions(parts),
    ensures
        same_shape(base, write_back(base, parts, vals, n)),
        occurrences(write_back(base, parts, vals, n), x) == occurrences(base, x) + count_upto(vals, x, n) - count_upto(
            part_sessions(parts),
            x,
            n,
        ),
        forall|j: int|
            n <= j < parts.len() ==> #[trigger] at(write_back(base, parts, vals, n), (parts[j].0, parts[j].1))
                == parts[j].3,
    decreases n,
{
    if n > 0 {
        lemma_write_back_counts(base, parts, vals, (n - 1) as nat, x);
        let prev = write_back(base, parts, vals, (n - 1) as nat);
        let pos = (parts[n - 1].0, parts[n - 1].1);
        assert(valid_pos(base, (parts[n - 1].0, parts[n - 1].1)));
        assert(prev[pos.0 as int].len() == base[pos.0 as int].len());
        assert(at(prev, pos) == parts[n - 1].3);
        assert(part_sessions(parts)[n - 1] == parts[n - 1].3);
        lemma_write_at(prev, pos, vals[n - 1], x);
        assert forall|j: int| n <= j < parts.len() implies #[trigger] at(
            write_back(base, parts, vals, n),
            (parts[j].0, parts[j].1),
        ) == parts[j].3 by {
            assert((parts[j].0, parts[j].1) != (parts[n - 1].0, parts[n - 1].1));
            assert(valid_pos(base, (parts[j].0, parts[j].1)));
            assert(prev[parts[j].0 as int].len() == base[parts[j].0 as int].len());
            lemma_write_elsewhere(prev, pos, vals[n - 1], (parts[j].0, parts[j].1));
        }
    }
}

/// Placing a series at a block that holds none of its parts exchanges the
/// parts with the block: every minisymposium occurs as often as before.
proof fn lemma_placed_rearranges(
    sched: Seq<Seq<usize>>,
    parts: Seq<(usize, usize, usize, usize)>,
    start: int,
    room: int,
)
    requires
        parts_in_place(sched, parts),
        distinct_positions(parts),
        block_fits(sched, start, room, parts.len() as int),
        block_clear(parts, start, room, parts.len() as int),
        sched.len() <= usize::MAX,
    ensures
        rearranged(sched, placed(sched, parts, start, room)),
{
    let n = parts.len();
    let bv = block_values(sched, start, room, n);
    let wb = write_block(sched, parts, start, room, n);
    lemma_write_block_counts(sched, parts, start, room, n, 0);
    assert forall|j: int| 0 <= j < parts.len() implies valid_pos(wb, (#[trigger] parts[j].0, parts[j].1)) && at(
        wb,
        (parts[j].0, parts[j].1),
    ) == parts[j].3 by {
        assert(valid_pos(sched, (parts[j].0, parts[j].1)));
        assert(!((parts[j]).1 == room && start <= parts[j].0 < start + n));
        assert(wb[parts[j].0 as int].len() == sched[parts[j].0 as int].len());
    }
    assert forall|x: usize| #[trigger] occurrences(sched, x) == occurrences(placed(sched, parts, start, room), x) by {
        lemma_write_block_counts(sched, parts, start, room, n, x);
        lemma_write_back_counts(wb, parts, bv, n, x);
    }
    lemma_write_back_counts(wb, parts, bv, n, 0);
}

proof fn lemma_write_at_shape(sched: Seq<Seq<usize>>, p: (usize, usize), v: usize)
    requires
        valid_pos(sched, p),
    ensures
        same_shape(sched, write_at(sched, p, v)),
{
}

proof fn lemma_write_block_shape(
    sched: Seq<Seq<usize>>,
    parts: Seq<(usize, usize, usize, usize)>,
    start: int,
    room: int,
    n: nat,
)
    requires
        block_fits(sched, start, room, parts.len() as int),
        well_sized(sched),
        n <= parts.len(),
    ensures
        same_shape(sched, write_block(sched, parts, start, room, n)),
    decreases n,
{
    if n > 0 {
        lemma_write_block_shape(sched, parts, start, room, (n - 1) as nat);
        let prev = write_block(sched, parts, start, room, (n - 1) as nat);
        assert(room < sched[start + n - 1].len());
        lemma_write_at_shape(prev, ((start + n - 1) as usize, room as usize), parts[n - 1].3);
    }
}

proof fn lemma_write_back_shape(
    sched: Seq<Seq<usize>>,
    parts: Seq<(usize, usize, usize, usize)>,
    vals: Seq<usize>,
    n: nat,
)
    requires
        parts_in_place(sched, parts),
        n <= parts.len(),
    ensures
        same_shape(sched, write_back(sched, parts, vals, n)),
    decreases n,
{
    if n > 0 {
        lemma_write_back_shape(sched, parts, vals, (n - 1) as nat);
        let prev = write_back(sched, parts, vals, (n - 1) as nat);
        assert(valid_pos(sched, (parts[n - 1].0, parts[n - 1].1)));
        lemma_write_at_shape(prev, (parts[n - 1].0, parts[n - 1].1), vals[n - 1]);
    }
}

pub proof fn lemma_placed_shape(sched: Seq<Seq<usize>>, parts: Seq<(usize, usize, usize, usize)>, start: int, room: int)
    requires
        block_fits(sched, start, room, parts.len() as int),
        well_sized(sched),
        parts_in_place(sched, parts),
    ensures
        same_shape(sched, placed(sched, parts, start, room)),
{
    let wb = write_block(sched, parts, start, room, parts.len());
    lemma_write_block_shape(sched, parts, start, room, parts.len());
    assert forall|j: int| 0 <= j < parts.len() implies valid_pos(wb, (#[trigger] parts[j].0, parts[j].1)) by {
        assert(valid_pos(sched, (parts[j].0, parts[j].1)));
    }
    lemma_write_back_shape_valid(wb, parts, block_values(sched, start, room, parts.len()), parts.len());
}

proof fn lemma_write_back_shape_valid(
    sched: Seq<Seq<usize>>,
    parts: Seq<(usize, usize, usize, usize)>,
    vals: Seq<usize>,
    n: nat,
)
    requires
        forall|j: int| 0 <= j < parts.len() ==> valid_pos(sched, (#[trigger] parts[j].0, parts[j].1)),
        n <= parts.len(),
    ensures
        same_shape(sched, write_back(sched, parts, vals, n)),
    decreases n,
{
    if n > 0 {
        lemma_write_back_shape_valid(sched, parts, vals, (n - 1) as nat);
        let prev = write_back(sched, parts, vals, (n - 1) as nat);
        assert(valid_pos(sched, (parts[n - 1].0, parts[n - 1].1)));
        lemma_write_at_shape(prev, (parts[n - 1].0, parts[n - 1].1), vals[n - 1]);
    }
}

/// `(s1, r1)` comes before `(s2, r2)`: by slot, then by room.
pub open spec fn placement_before(s1: int, r1: int, s2: int, r2: int) -> bool {
    s1 < s2 || (s1 == s2 && r1 < r2)
}

/// The first accepted placement of the series `parts` (by start slot, then
/// room), with the schedule it gives.
pub fn find_placement(
    schedule: &Vec<Vec<usize>>,
    parts: &Vec<(usize, usize, usize, usize)>,
    current: i32,
    all_sessions: &[Minisymposium],
    old: &ConflictCounts,
    protected_types: &[ConflictType],
    strict: bool,
) -> (r: Option<(usize, usize, Vec<Vec<usize>>)>)
    requires
        counts_fit(slots(schedule@)),
        parts@.len() >= 2,
        parts_in_place(slots(schedule@), parts@),
        current >= 0,
        current as nat == conflicts_of(ConflictType::SeriesBackToBack, all_sessions@, slots(schedule@)),
    ensures
        match r {
            Some((st, rm, t)) => {
                &&& acceptable_placement(all_sessions@, slots(schedule@), parts@, st as int, rm as int, *old, protected_types@, strict)
                &&& slots(t@) == placed(slots(schedule@), parts@, st as int, rm as int)
                &&& forall|s2: int, r2: int|
                    placement_before(s2, r2, st as int, rm as int) ==> !#[trigger] acceptable_placement(
                        all_sessions@,
                        slots(schedule@),
                        parts@,
                        s2,
                        r2,
                        *old,
                        protected_types@,
                        strict,
                    )
            },
            None => forall|s2: int, r2: int|
                !#[trigger] acceptable_placement(all_sessions@, slots(schedule@), parts@, s2, r2, *old, protected_types@, strict),
        },
{
    let ghost sched = slots(schedule@);
    let ghost ms = all_sessions@;
    let ghost pr = protected_types@;
    let ghost ps = parts@;
    proof {
        lemma_slots_well_sized(*schedule);
    }
    let n = parts.len();
    let limit = if schedule.len() >= n - 1 { schedule.len() - (n - 1) } else { 0 };
    let mut start: usize = 0;
    while start < limit
        invariant
            sched == slots(schedule@),
            ms == all_sessions@,
            pr == protected_types@,
            ps == parts@,
            n == ps.len(),
            n >= 2,
            well_sized(sched),
            counts_fit(sched),
            parts_in_place(sched, ps),
            current >= 0,
            current as nat == conflicts_of(ConflictType::SeriesBackToBack, ms, sched),
            limit as int == if sched.len() >= n - 1 { sched.len() - (n - 1) } else { 0 },
            start <= limit,
            forall|s2: int, r2: int|
                s2 < start ==> !#[trigger] acceptable_placement(ms, sched, ps, s2, r2, *old, pr, strict),
        decreases limit - start,
    {
        let max_rooms = if schedule[start].len() < 8 { schedule[start].len() } else { 8 };
        let mut room: usize = 0;
        while room < max_rooms
            invariant
                sched == slots(schedule@),
                ms == all_sessions@,
                pr == protected_types@,
                ps == parts@,
                n == ps.len(),
                n >= 2,
                well_sized(sched),
                counts_fit(sched),
                parts_in_place(sched, ps),
                current >= 0,
                current as nat == conflicts_of(ConflictType::SeriesBackToBack, ms, sched),
                limit as int == if sched.len() >= n - 1 { sched.len() - (n - 1) } else { 0 },
                start < limit,
                max_rooms <= 8,
                max_rooms <= sched[start as int].len(),
                max_rooms == 8 || max_rooms == sched[start as int].len(),
                room <= max_rooms,
                forall|s2: int, r2: int|
                    placement_before(s2, r2, start as int, room as int) ==> !#[trigger] acceptable_placement(
                        ms,
                        sched,
                        ps,
                        s2,
                        r2,
                        *old,
                        pr,
                        strict,
                    ),
            decreases max_rooms - room,
        {
            let mut targets: Vec<usize> = Vec::new();
            let mut ok = true;
            let mut i: usize = 0;
            while i < n && ok
                invariant
                    sched == slots(schedule@),
                    well_sized(sched),
                    ps == parts@,
                    n == ps.len(),
                    start < limit,
                    limit as int == if sched.len() >= n - 1 { sched.len() - (n - 1) } else { 0 },
                    i <= n,
                    ok ==> targets@ == block_values(sched, start as int, room as int, i as nat),
                    ok ==> forall|j: int| 0 <= j < i ==> room < #[trigger] sched[start + j].len(),
                    !ok ==> exists|j: int| 0 <= j < n && room >= #[trigger] sched[start + j].len(),
                decreases n - i + if ok { 1int } else { 0int },
            {
                let t = start + i;
                assert(sched[t as int] == schedule@[t as int]@);
                if room >= schedule[t].len() {
                    ok = false;
                } else {
                    targets.push(schedule[t][room]);
                    i = i + 1;
                    assert(targets@ =~= block_values(sched, start as int, room as int, i as nat));
                }
            }
            if ok {
                assert(block_fits(sched, start as int, room as int, n as int));
                let mut same = true;
                let mut j: usize = 0;
                while j < n
                    invariant
                        ps == parts@,
                        n == ps.len(),
                        targets@.len() == n,
                        j <= n,
                        same == (forall|q: int| 0 <= q < j ==> targets@[q] == #[trigger] ps[q].3),
                    decreases n - j,
                {
                    if targets[j] != parts[j].3 {
                        same = false;
                    }
                    j = j + 1;
                }
                proof {
                    if same {
                        assert(targets@ =~= part_sessions(ps));
                    } else {
                        let q = choose|q: int| 0 <= q < n && targets@[q] != #[trigger] ps[q].3;
                        assert(part_sessions(ps)[q] == ps[q].3);
                        assert(targets@ != part_sessions(ps));
                    }
                }
                let mut clear = true;
                let mut j: usize = 0;
                while j < n
                    invariant
                        ps == parts@,
                        n == ps.len(),
                        j <= n,
                        clear == (forall|q: int| 0 <= q < j ==> !((#[trigger] ps[q]).1 == room && start <= ps[q].0 < start + n)),
                    decreases n - j,
                {
                    if parts[j].1 == room && start <= parts[j].0 && parts[j].0 - start < n {
                        clear = false;
                    }
                    j = j + 1;
                }
                if !same && clear {
                    let mut test = copy_schedule(schedule);
                    let mut i: usize = 0;
                    while i < n
                        invariant
                            sched == slots(schedule@),
                            ps == parts@,
                            n == ps.len(),
                            well_sized(sched),
                            block_fits(sched, start as int, room as int, n as int),
                            i <= n,
                            slots(test@) == write_block(sched, ps, start as int, room as int, i as nat),
                        decreases n - i,
                    {
                        proof {
                            lemma_write_block_shape(sched, ps, start as int, room as int, i as nat);
                            assert(room < sched[start + i].len());
                        }
                        let ghost prev = slots(test@);
                        test[start + i][room] = parts[i].3;
                        i = i + 1;
                        assert(slots(test@) =~= write_at(prev, ((start + i - 1) as usize, room as usize), ps[i - 1].3));
                    }
                    let ghost wb = slots(test@);
                    proof {
                        lemma_write_block_shape(sched, ps, start as int, room as int, n as nat);
                    }
                    let mut i: usize = 0;
                    while i < n
                        invariant
                            sched == slots(schedule@),
                            ps == parts@,
                            n == ps.len(),
                            targets@.len() == n,
                            same_shape(sched, wb),
                            parts_in_place(sched, ps),
                            targets@ == block_values(sched, start as int, room as int, n as nat),
                            i <= n,
                            slots(test@) == write_back(wb, ps, targets@, i as nat),
                        decreases n - i,
                    {
                        proof {
                            lemma_write_back_shape_valid_from(sched, wb, ps, targets@, i as nat);
                            assert(valid_pos(sched, (ps[i as int].0, ps[i as int].1)));
                        }
                        let ghost prev = slots(test@);
                        let (pt, pr_room, _, _) = parts[i];
                        test[pt][pr_room] = targets[i];
                        i = i + 1;
                        assert(slots(test@) =~= write_at(prev, (ps[i - 1].0, ps[i - 1].1), targets@[i - 1]));
                    }
                    proof {
                        assert(slots(test@) == placed(sched, ps, start as int, room as int));
                        lemma_placed_shape(sched, ps, start as int, room as int);
                        lemma_counts_fit_same_shape(sched, slots(test@));
                    }
                    let test_conflicts = calculate_conflicts(ConflictType::SeriesBackToBack, &test, all_sessions);
                    if test_conflicts < current {
                        if protection_kept(ConflictType::SeriesBackToBack, &test, all_sessions, old, protected_types, strict) {
                            return Some((start, room, test));
                        }
                    }
                }
            } else {
                proof {
                    let j = choose|j: int| 0 <= j < n && room >= #[trigger] sched[start + j].len();
                    assert forall|s2: int, r2: int| s2 == start && r2 == room implies !#[trigger] acceptable_placement(
                        ms, sched, ps, s2, r2, *old, pr, strict,
                    ) by {
                        assert(!block_fits(sched, s2, r2, n as int)) by {
                            assert(room >= sched[start + j].len());
                        }
                    }
                }
            }
            room = room + 1;
        }
        proof {
            assert forall|s2: int, r2: int| s2 < start + 1 implies !#[trigger] acceptable_placement(
                ms, sched, ps, s2, r2, *old, pr, strict,
            ) by {
                if s2 == start && r2 >= max_rooms {
                    if r2 >= 8 {
                    } else {
                        assert(!(r2 < sched[s2 + 0].len()));
                    }
                } else if s2 == start && r2 < 0 {
                } else if s2 == start {
                    assert(placement_before(s2, r2, start as int, room as int));
                }
            }
        }
        start = start + 1;
    }
    proof {
        assert forall|s2: int, r2: int| !#[trigger] acceptable_placement(ms, sched, ps, s2, r2, *old, pr, strict) by {
            if s2 >= start {
                assert(!block_fits(sched, s2, r2, n as int));
            }
        }
    }
    None
}

proof fn lemma_write_back_shape_valid_from(
    sched: Seq<Seq<usize>>,
    wb: Seq<Seq<usize>>,
    parts: Seq<(usize, usize, usize, usize)>,
    vals: Seq<usize>,
    n: nat,
)
    requires
        same_shape(sched, wb),
        parts_in_place(sched, parts),
        n <= parts.len(),
    ensures
        same_shape(sched, write_back(wb, parts, vals, n)),
{
    assert forall|j: int| 0 <= j < parts.len() implies valid_pos(wb, (#[trigger] parts[j].0, parts[j].1)) by {
        assert(valid_pos(sched, (parts[j].0, parts[j].1)));
    }
    lemma_write_back_shape_valid(wb, parts, vals, n);
}

/// Series `base` has at least two parts, two consecutive parts are not in
/// adjacent slots, and placing it at `(start, room)` is accepted.
pub open spec fn series_fix(
    ms: Seq<Minisymposium>,
    sched: Seq<Seq<usize>>,
    base: Seq<char>,
    start: int,
    room: int,
    old: ConflictCounts,
    protected: Seq<ConflictType>,
    strict: bool,
) -> bool {
    let parts = series_parts(ms, sched, base);
    &&& parts.len() >= 2
    &&& has_gap(parts)
    &&& acceptable_placement(ms, sched, parts, start, room, old, protected, strict)
}

/// The series base title of the minisymposium of entry `e`, if any.
pub open spec fn entry_base(ms: Seq<Minisymposium>, e: (usize, usize, usize)) -> Option<Seq<char>> {
    match entry_series(ms, e) {
        Some(info) => Some(info.0),
        None => None,
    }
}

proof fn lemma_series_parts_source(ms: Seq<Minisymposium>, fl: Seq<(usize, usize, usize)>, base: Seq<char>, end: nat)
    requires
        end <= fl.len(),
        series_parts_upto(ms, fl, base, end).len() > 0,
    ensures
        exists|k: int| 0 <= k < end && #[trigger] entry_base(ms, fl[k]) == Some(base),
    decreases end,
{
    let prev = series_parts_upto(ms, fl, base, (end - 1) as nat);
    let e = fl[end - 1];
    match entry_series(ms, e) {
        Some(info) => {
            if info.0 == base {
                assert(entry_base(ms, fl[end - 1]) == Some(base));
            } else {
                lemma_series_parts_source(ms, fl, base, (end - 1) as nat);
            }
        },
        None => {
            lemma_series_parts_source(ms, fl, base, (end - 1) as nat);
        },
    }
}

/// Entry `k` of the schedule (in schedule order) is a part of a series that
/// placement `(st, rm)` fixes, no earlier placement (by slot, then room)
/// fixes that series, and no series of an earlier entry can be fixed at all.
pub open spec fn first_series_fix(
    ms: Seq<Minisymposium>,
    sched: Seq<Seq<usize>>,
    k: int,
    st: int,
    rm: int,
    old: ConflictCounts,
    protected: Seq<ConflictType>,
    strict: bool,
) -> bool {
    let fl = flat(sched);
    &&& 0 <= k < fl.len()
    &&& entry_base(ms, fl[k]) is Some
    &&& series_fix(ms, sched, entry_base(ms, fl[k])->0, st, rm, old, protected, strict)
    &&& forall|s2: int, r2: int|
        placement_before(s2, r2, st, rm) ==> !#[trigger] series_fix(
            ms,
            sched,
            entry_base(ms, fl[k])->0,
            s2,
            r2,
            old,
            protected,
            strict,
        )
    &&& forall|j: int, s2: int, r2: int|
        0 <= j < k && entry_base(ms, fl[j]) is Some ==> !#[trigger] series_fix(
            ms,
            sched,
            entry_base(ms, fl[j])->0,
            s2,
            r2,
            old,
            protected,
            strict,
        )
}

/// Tries to move one series whose consecutive parts are not in adjacent
/// slots into consecutive slots of one room (see `placed`), exchanging it
/// with the minisymposia held there. Series are taken in order of their
/// first part in the schedule, and for a series the first accepted
/// placement (by slot, then room) is made (`first_series_fix`); the
/// schedule is only rearranged. Returns whether a placement was made;
/// otherwise the schedule is unchanged and no series can be fixed.
pub fn try_series_placement(
    schedule: &mut Vec<Vec<usize>>,
    all_sessions: &[Minisymposium],
    original_conflicts: &ConflictCounts,
    protected_types: &[ConflictType],
    strict: bool,
) -> (r: bool)
    requires
        counts_fit(slots(old(schedule)@)),
    ensures
        r ==> exists|base: Seq<char>, st: int, rm: int|
            #[trigger] series_fix(all_sessions@, slots(old(schedule)@), base, st, rm, *original_conflicts, protected_types@, strict)
                && slots(final(schedule)@) == placed(
                slots(old(schedule)@),
                series_parts(all_sessions@, slots(old(schedule)@), base),
                st,
                rm,
            ),
        r ==> exists|k: int, st: int, rm: int|
            #[trigger] first_series_fix(all_sessions@, slots(old(schedule)@), k, st, rm, *original_conflicts, protected_types@, strict)
                && slots(final(schedule)@) == placed(
                slots(old(schedule)@),
                series_parts(all_sessions@, slots(old(schedule)@), entry_base(all_sessions@, flat(slots(old(schedule)@))[k])->0),
                st,
                rm,
            ),
        !r ==> slots(final(schedule)@) == slots(old(schedule)@),
        !r ==> forall|base: Seq<char>, st: int, rm: int|
            !#[trigger] series_fix(all_sessions@, slots(old(schedule)@), base, st, rm, *original_conflicts, protected_types@, strict),
        rearranged(slots(old(schedule)@), slots(final(schedule)@)),
{
    let ghost sched = slots(schedule@);
    let ghost ms = all_sessions@;
    let ghost pr = protected_types@;
    let fl = schedule_entries(schedule);
    proof {
        lemma_slots_well_sized(*schedule);
        lemma_flat_len(sched, sched.len());
        lemma_rearranged_refl(sched);
    }
    let infos = series_infos(&fl, all_sessions);
    let mut k: usize = 0;
    while k < fl.len()
        invariant
            sched == slots(schedule@),
            sched == slots(old(schedule)@),
            ms == all_sessions@,
            pr == protected_types@,
            fl@ == flat(sched),
            well_sized(sched),
            counts_fit(sched),
            infos@.len() == fl@.len(),
            forall|j: int|
                0 <= j < fl@.len() ==> match #[trigger] infos@[j] {
                    Some(x) => entry_series(ms, fl@[j]) == Some((x.0@, x.1 as nat)),
                    None => entry_series(ms, fl@[j]) is None,
                },
            k <= fl@.len(),
            forall|base: Seq<char>, st: int, rm: int|
                (exists|j: int| 0 <= j < k && #[trigger] entry_base(ms, fl@[j]) == Some(base))
                    ==> !#[trigger] series_fix(ms, sched, base, st, rm, *original_conflicts, pr, strict),
        decreases fl.len() - k,
    {
        match &infos[k] {
            Some(x) => {
                let parts = collect_parts(&fl, &infos, &x.0, all_sessions);
                let ghost b = x.0@;
                assert(parts@ == series_parts(ms, sched, b));
                if parts.len() >= 2 {
                    let current = calculate_conflicts(ConflictType::SeriesBackToBack, schedule, all_sessions);
                    if current == 0 {
                        assert forall|base: Seq<char>, st: int, rm: int|
                            !#[trigger] series_fix(ms, sched, base, st, rm, *original_conflicts, pr, strict) by {
                            if series_fix(ms, sched, base, st, rm, *original_conflicts, pr, strict) {
                                assert(acceptable_placement(ms, sched, series_parts(ms, sched, base), st, rm, *original_conflicts, pr, strict));
                            }
                        }
                        return false;
                    }
                    if parts_have_gap(&parts) {
                        proof {
                            lemma_series_parts_in_place(ms, sched, b, fl@.len() as nat);
                        }
                        match find_placement(schedule, &parts, current, all_sessions, original_conflicts, protected_types, strict) {
                            Some((st, rm, test)) => {
                                assert(series_fix(ms, sched, b, st as int, rm as int, *original_conflicts, pr, strict));
                                proof {
                                    assert(entry_base(ms, fl@[k as int]) == Some(b));
                                    assert forall|s2: int, r2: int|
                                        placement_before(s2, r2, st as int, rm as int) implies !#[trigger] series_fix(
                                        ms,
                                        sched,
                                        b,
                                        s2,
                                        r2,
                                        *original_conflicts,
                                        pr,
                                        strict,
                                    ) by {
                                        if series_fix(ms, sched, b, s2, r2, *original_conflicts, pr, strict) {
                                            assert(acceptable_placement(ms, sched, parts@, s2, r2, *original_conflicts, pr, strict));
                                        }
                                    }
                                    assert forall|j: int, s2: int, r2: int|
                                        0 <= j < k && entry_base(ms, fl@[j]) is Some implies !#[trigger] series_fix(
                                        ms,
                                        sched,
                                        entry_base(ms, fl@[j])->0,
                                        s2,
                                        r2,
                                        *original_conflicts,
                                        pr,
                                        strict,
                                    ) by {
                                        assert(entry_base(ms, fl@[j]) == Some(entry_base(ms, fl@[j])->0));
                                    }
                                    assert(first_series_fix(ms, sched, k as int, st as int, rm as int, *original_conflicts, pr, strict));
                                    lemma_series_parts_positions(ms, sched, b);
                                    lemma_placed_rearranges(sched, parts@, st as int, rm as int);
                                }
                                *schedule = test;
                                return true;
                            },
                            None => {
                                assert(forall|st: int, rm: int| !#[trigger] series_fix(ms, sched, b, st, rm, *original_conflicts, pr, strict));
                            },
                        }
                    } else {
                        assert(forall|st: int, rm: int| !#[trigger] series_fix(ms, sched, b, st, rm, *original_conflicts, pr, strict));
                    }
                } else {
                    assert(forall|st: int, rm: int| !#[trigger] series_fix(ms, sched, b, st, rm, *original_conflicts, pr, strict));
                }
                proof {
                    assert forall|base: Seq<char>, st: int, rm: int|
                        (exists|j: int| 0 <= j < k + 1 && #[trigger] entry_base(ms, fl@[j]) == Some(base))
                            implies !#[trigger] series_fix(ms, sched, base, st, rm, *original_conflicts, pr, strict) by {
                        let j = choose|j: int| 0 <= j < k + 1 && #[trigger] entry_base(ms, fl@[j]) == Some(base);
                        if j == k {
                            assert(base == b);
                        }
                    }
                }
            },
            None => {
                proof {
                    assert forall|base: Seq<char>, st: int, rm: int|
                        (exists|j: int| 0 <= j < k + 1 && #[trigger] entry_base(ms, fl@[j]) == Some(base))
                            implies !#[trigger] series_fix(ms, sched, base, st, rm, *original_conflicts, pr, strict) by {
                        let j = choose|j: int| 0 <= j < k + 1 && #[trigger] entry_base(ms, fl@[j]) == Some(base);
                        assert(j != k);
                    }
                }
            },
        }
        k = k + 1;
    }
    proof {
        assert forall|base: Seq<char>, st: int, rm: int|
            !#[trigger] series_fix(ms, sched, base, st, rm, *original_conflicts, pr, strict) by {
            if series_fix(ms, sched, base, st, rm, *original_conflicts, pr, strict) {
                lemma_series_parts_source(ms, fl@, base, fl@.len() as nat);
            }
        }
    }
    false
}

// ===========================================================================
// Chronological order cleanup
// ===========================================================================

/// One pass over the parts from index `i` on: whenever part `i + 1` is in
/// an earlier slot than part `i`, the two are exchanged (and the list of
/// parts follows them).
pub open spec fn ordering_pass(
    sched: Seq<Seq<usize>>,
    parts: Seq<(usize, usize, usize, usize)>,
    i: nat,
) -> Seq<Seq<usize>>
    decreases parts.len() - i,
{
    if i + 1 >= parts.len() {
        sched
    } else {
        let a = parts[i as int];
        let b = parts[i as int + 1];
        if a.0 > b.0 {
            ordering_pass(
                swap_at(sched, (a.0, a.1), (b.0, b.1)),
                parts.update(i as int, (b.0, b.1, a.2, a.3)).update(i as int + 1, (a.0, a.1, b.2, b.3)),
                i + 1,
            )
        } else {
            ordering_pass(sched, parts, i + 1)
        }
    }
}

/// The list of parts after the pass from index `i` on: an exchanged pair
/// trades positions, and each part keeps its number and minisymposium.
pub open spec fn pass_parts(parts: Seq<(usize, usize, usize, usize)>, i: nat) -> Seq<(usize, usize, usize, usize)>
    decreases parts.len() - i,
{
    if i + 1 >= parts.len() {
        parts
    } else {
        let a = parts[i as int];
        let b = parts[i as int + 1];
        if a.0 > b.0 {
            pass_parts(parts.update(i as int, (b.0, b.1, a.2, a.3)).update(i as int + 1, (a.0, a.1, b.2, b.3)), i + 1)
        } else {
            pass_parts(parts, i + 1)
        }
    }
}

/// The pass from index `i` on makes at least one exchange.
pub open spec fn pass_exchanges(parts: Seq<(usize, usize, usize, usize)>, i: nat) -> bool
    decreases parts.len() - i,
{
    if i + 1 >= parts.len() {
        false
    } else if parts[i as int].0 > parts[i as int + 1].0 {
        true
    } else {
        pass_exchanges(parts, i + 1)
    }
}

/// Passes repeated, at most `n` of them, until one makes no exchange.
pub open spec fn ordering_rounds(sched: Seq<Seq<usize>>, parts: Seq<(usize, usize, usize, usize)>, n: nat) -> Seq<
    Seq<usize>,
>
    decreases n,
{
    if n == 0 || !pass_exchanges(parts, 0) {
        sched
    } else {
        ordering_rounds(ordering_pass(sched, parts, 0), pass_parts(parts, 0), (n - 1) as nat)
    }
}

/// The list of parts after the passes of `ordering_rounds`.
pub open spec fn rounds_parts(parts: Seq<(usize, usize, usize, usize)>, n: nat) -> Seq<(usize, usize, usize, usize)>
    decreases n,
{
    if n == 0 || !pass_exchanges(parts, 0) {
        parts
    } else {
        rounds_parts(pass_parts(parts, 0), (n - 1) as nat)
    }
}

/// No part of the list is in a later slot than a part after it.
pub open spec fn slot_ordered(parts: Seq<(usize, usize, usize, usize)>) -> bool {
    forall|a: int, b: int| 0 <= a <= b < parts.len() ==> #[trigger] parts[a].0 <= #[trigger] parts[b].0
}

/// From index `m` on the parts are in slot order, and none of them is in an
/// earlier slot than a part before `m`.
spec fn settled_from(p: Seq<(usize, usize, usize, usize)>, m: int) -> bool {
    &&& forall|a: int, b: int| m <= a <= b < p.len() ==> #[trigger] p[a].0 <= #[trigger] p[b].0
    &&& forall|j: int, a: int| 0 <= j < m <= a < p.len() ==> #[trigger] p[j].0 <= #[trigger] p[a].0
}

/// A pass from `i` on makes no exchange where the parts from `i` on are in
/// slot order.
proof fn lemma_ordered_pass_is_quiet(p: Seq<(usize, usize, usize, usize)>, i: nat)
    requires
        forall|a: int, b: int| i <= a <= b < p.len() ==> #[trigger] p[a].0 <= #[trigger] p[b].0,
    ensures
        !pass_exchanges(p, i),
    decreases p.len() - i,
{
    if i + 1 < p.len() {
        assert(p[i as int].0 <= p[i as int + 1].0);
        lemma_ordered_pass_is_quiet(p, i + 1);
    }
}

/// Where a pass from `i` on makes no exchange, the parts from `i` on are in
/// slot order.
proof fn lemma_quiet_pass_is_ordered(p: Seq<(usize, usize, usize, usize)>, i: nat)
    requires
        !pass_exchanges(p, i),
    ensures
        forall|a: int, b: int| i <= a <= b < p.len() ==> #[trigger] p[a].0 <= #[trigger] p[b].0,
    decreases p.len() - i,
{
    if i + 1 < p.len() {
        lemma_quiet_pass_is_ordered(p, i + 1);
        assert forall|a: int, b: int| i <= a <= b < p.len() implies #[trigger] p[a].0 <= #[trigger] p[b].0 by {
            if a == i && b > a {
                assert(p[i as int].0 <= p[i as int + 1].0);
                assert(p[i as int + 1].0 <= p[b].0);
            }
        }
    }
}

/// A pass from `i < m`, where the part at `i` is in a slot no earlier than
/// any part before it, settles one more part: the part before `m` ends in a
/// slot no earlier than any part before it.
proof fn lemma_bubble(q: Seq<(usize, usize, usize, usize)>, i: nat, m: nat)
    requires
        i < m <= q.len(),
        settled_from(q, m as int),
        forall|k: int| 0 <= k < i ==> #[trigger] q[k].0 <= q[i as int].0,
    ensures
        pass_parts(q, i).len() == q.len(),
        settled_from(pass_parts(q, i), m - 1),
    decreases q.len() - i,
{
    if i + 1 >= q.len() {
        assert(settled_from(q, m - 1));
    } else if i + 1 == m {
        assert(q[i as int].0 <= q[i as int + 1].0);
        assert forall|a: int, b: int| m <= a <= b < q.len() implies #[trigger] q[a].0 <= #[trigger] q[b].0 by {}
        lemma_ordered_pass_is_quiet(q, m);
        lemma_quiet_pass(Seq::empty(), q, m);
        assert(pass_parts(q, i) == pass_parts(q, m));
        assert(settled_from(q, m - 1));
    } else {
        let a = q[i as int];
        let b = q[i as int + 1];
        if a.0 > b.0 {
            let q2 = q.update(i as int, (b.0, b.1, a.2, a.3)).update(i as int + 1, (a.0, a.1, b.2, b.3));
            assert(settled_from(q2, m as int)) by {
                assert forall|j: int, x: int| 0 <= j < m <= x < q2.len() implies #[trigger] q2[j].0 <= #[trigger] q2[x].0 by {
                    assert(q2[x] == q[x]);
                    if j == i {
                        assert(q[i as int + 1].0 <= q[x].0);
                    } else if j == i + 1 {
                        assert(q[i as int].0 <= q[x].0);
                    } else {
                        assert(q2[j] == q[j]);
                        assert(q[j].0 <= q[x].0);
                    }
                }
                assert forall|x: int, y: int| m <= x <= y < q2.len() implies #[trigger] q2[x].0 <= #[trigger] q2[y].0 by {
                    assert(q2[x] == q[x]);
                    assert(q2[y] == q[y]);
                    assert(q[x].0 <= q[y].0);
                }
            }
            assert forall|k: int| 0 <= k < i + 1 implies #[trigger] q2[k].0 <= q2[i as int + 1].0 by {
                if k < i {
                    assert(q2[k] == q[k]);
                    assert(q[k].0 <= q[i as int].0);
                }
            }
            lemma_bubble(q2, i + 1, m);
        } else {
            assert forall|k: int| 0 <= k < i + 1 implies #[trigger] q[k].0 <= q[i as int + 1].0 by {
                if k < i {
                    assert(q[k].0 <= q[i as int].0);
                }
            }
            lemma_bubble(q, i + 1, m);
        }
    }
}

proof fn lemma_rounds_sort(p: Seq<(usize, usize, usize, usize)>, n: nat, m: nat)
    requires
        m <= n,
        m <= p.len(),
        settled_from(p, m as int),
    ensures
        slot_ordered(rounds_parts(p, n)),
    decreases n,
{
    if !pass_exchanges(p, 0) {
        lemma_quiet_pass_is_ordered(p, 0);
    } else if m == 0 {
        assert forall|a: int, b: int| 0 <= a <= b < p.len() implies #[trigger] p[a].0 <= #[trigger] p[b].0 by {}
        lemma_ordered_pass_is_quiet(p, 0);
    } else {
        lemma_bubble(p, 0, m);
        lemma_rounds_sort(pass_parts(p, 0), (n - 1) as nat, (m - 1) as nat);
    }
}

/// No two parts of the list name the same position.
pub open spec fn distinct_positions(parts: Seq<(usize, usize, usize, usize)>) -> bool {
    forall|i: int, j: int|
        0 <= i < parts.len() && 0 <= j < parts.len() && i != j ==> (#[trigger] parts[i].0, parts[i].1) != (
            #[trigger] parts[j].0,
            parts[j].1,
        )
}

/// Each entry of the list keeps its part number and minisymposium.
pub open spec fn same_parts(p: Seq<(usize, usize, usize, usize)>, q: Seq<(usize, usize, usize, usize)>) -> bool {
    p.len() == q.len() && forall|k: int| 0 <= k < p.len() ==> #[trigger] q[k].2 == p[k].2 && q[k].3 == p[k].3
}

proof fn lemma_pass_same_parts(p: Seq<(usize, usize, usize, usize)>, i: nat)
    ensures
        same_parts(p, pass_parts(p, i)),
    decreases p.len() - i,
{
    if i + 1 < p.len() {
        let a = p[i as int];
        let b = p[i as int + 1];
        if a.0 > b.0 {
            let p2 = p.update(i as int, (b.0, b.1, a.2, a.3)).update(i as int + 1, (a.0, a.1, b.2, b.3));
            lemma_pass_same_parts(p2, i + 1);
            let r = pass_parts(p2, i + 1);
            assert(p2.len() == p.len());
            assert(same_parts(p2, r));
            assert(pass_parts(p, i) == r);
            assert forall|k: int| 0 <= k < p.len() implies #[trigger] r[k].2 == p[k].2 && r[k].3 == p[k].3 by {
                assert(r[k].2 == p2[k].2 && r[k].3 == p2[k].3);
                if k == i {
                } else if k == i + 1 {
                } else {
                    assert(p2[k] == p[k]);
                }
            }
        } else {
            lemma_pass_same_parts(p, i + 1);
        }
    }
}

#[verifier::spinoff_prover]
proof fn lemma_pass_tracks(sched: Seq<Seq<usize>>, p: Seq<(usize, usize, usize, usize)>, i: nat)
    requires
        parts_in_place(sched, p),
        distinct_positions(p),
    ensures
        parts_in_place(ordering_pass(sched, p, i), pass_parts(p, i)),
        distinct_positions(pass_parts(p, i)),
    decreases p.len() - i,
{
    if i + 1 < p.len() {
        let a = p[i as int];
        let b = p[i as int + 1];
        if a.0 > b.0 {
            let pa = (a.0, a.1);
            let pb = (b.0, b.1);
            assert(pa != pb);
            let s2 = swap_at(sched, pa, pb);
            let p2 = p.update(i as int, (b.0, b.1, a.2, a.3)).update(i as int + 1, (a.0, a.1, b.2, b.3));
            assert(valid_pos(sched, (p[i as int].0, p[i as int].1)));
            assert(valid_pos(sched, (p[i as int + 1].0, p[i as int + 1].1)));
            lemma_swap_rearranges(sched, pa, pb);
            assert forall|j: int| 0 <= j < p2.len() implies valid_pos(s2, (#[trigger] p2[j].0, p2[j].1)) && at(
                s2,
                (p2[j].0, p2[j].1),
            ) == p2[j].3 by {
                if j == i {
                    assert(at(s2, pb) == at(sched, pa));
                } else if j == i + 1 {
                    assert(at(s2, pa) == at(sched, pb));
                } else {
                    assert(p2[j] == p[j]);
                    assert(valid_pos(sched, (p[j].0, p[j].1)));
                    assert((p[j].0, p[j].1) != pa);
                    assert((p[j].0, p[j].1) != pb);
                    assert(at(s2, (p[j].0, p[j].1)) == at(sched, (p[j].0, p[j].1)));
                }
            }
            assert forall|x: int, y: int|
                0 <= x < p2.len() && 0 <= y < p2.len() && x != y implies (#[trigger] p2[x].0, p2[x].1) != (
                #[trigger] p2[y].0,
                p2[y].1,
            ) by {
                let fx: int = if x == i { i + 1int } else if x == i + 1 { i as int } else { x };
                let fy: int = if y == i { i + 1int } else if y == i + 1 { i as int } else { y };
                assert((p2[x].0, p2[x].1) == (p[fx].0, p[fx].1));
                assert((p2[y].0, p2[y].1) == (p[fy].0, p[fy].1));
            }
            lemma_pass_tracks(s2, p2, i + 1);
        } else {
            lemma_pass_tracks(sched, p, i + 1);
        }
    }
}

proof fn lemma_rounds_track(sched: Seq<Seq<usize>>, p: Seq<(usize, usize, usize, usize)>, n: nat)
    requires
        parts_in_place(sched, p),
        distinct_positions(p),
    ensures
        parts_in_place(ordering_rounds(sched, p, n), rounds_parts(p, n)),
        same_parts(p, rounds_parts(p, n)),
    decreases n,
{
    if n > 0 && pass_exchanges(p, 0) {
        lemma_pass_tracks(sched, p, 0);
        lemma_pass_same_parts(p, 0);
        let q = pass_parts(p, 0);
        lemma_rounds_track(ordering_pass(sched, p, 0), q, (n - 1) as nat);
        let r = rounds_parts(q, (n - 1) as nat);
        assert forall|k: int| 0 <= k < p.len() implies #[trigger] r[k].2 == p[k].2 && r[k].3 == p[k].3 by {
            assert(r[k].2 == q[k].2 && r[k].3 == q[k].3);
        }
    }
}

/// Repeating the ordering passes, at most as many as there are parts, on a
/// schedule that holds each part where the list says (no two at one
/// position) puts the parts in slot order: no part ends in a later slot than
/// a part after it in the list, each entry keeps its part number and
/// minisymposium, and the schedule holds each minisymposium where the list
/// says.
pub proof fn law_ordering_rounds_order_parts(sched: Seq<Seq<usize>>, parts: Seq<(usize, usize, usize, usize)>)
    requires
        parts_in_place(sched, parts),
        distinct_positions(parts),
    ensures
        slot_ordered(rounds_parts(parts, parts.len())),
        same_parts(parts, rounds_parts(parts, parts.len())),
        parts_in_place(ordering_rounds(sched, parts, parts.len()), rounds_parts(parts, parts.len())),
{
    lemma_rounds_sort(parts, parts.len(), parts.len());
    lemma_rounds_track(sched, parts, parts.len());
}

/// Some part of the list is at position `q`.
pub open spec fn holds_position(p: Seq<(usize, usize, usize, usize)>, q: (usize, usize)) -> bool {
    exists|j: int| 0 <= j < p.len() && (#[trigger] p[j]).0 == q.0 && p[j].1 == q.1
}

/// Positions of the list after a pass are positions of the list before.
proof fn lemma_pass_positions(p: Seq<(usize, usize, usize, usize)>, i: nat)
    ensures
        pass_parts(p, i).len() == p.len(),
        forall|j: int|
            0 <= j < p.len() ==> holds_position(p, ((#[trigger] pass_parts(p, i)[j]).0, pass_parts(p, i)[j].1)),
    decreases p.len() - i,
{
    if i + 1 < p.len() {
        let a = p[i as int];
        let b = p[i as int + 1];
        if a.0 > b.0 {
            let p2 = p.update(i as int, (b.0, b.1, a.2, a.3)).update(i as int + 1, (a.0, a.1, b.2, b.3));
            lemma_pass_positions(p2, i + 1);
            let r = pass_parts(p2, i + 1);
            assert forall|j: int| 0 <= j < p.len() implies holds_position(p, ((#[trigger] r[j]).0, r[j].1)) by {
                assert(holds_position(p2, (r[j].0, r[j].1)));
                let m = choose|m: int| 0 <= m < p2.len() && (#[trigger] p2[m]).0 == r[j].0 && p2[m].1 == r[j].1;
                if m == i {
                    assert(p[i as int + 1].0 == r[j].0 && p[i as int + 1].1 == r[j].1);
                } else if m == i + 1 {
                    assert(p[i as int].0 == r[j].0 && p[i as int].1 == r[j].1);
                } else {
                    assert(p[m] == p2[m]);
                }
            }
        } else {
            lemma_pass_positions(p, i + 1);
        }
    } else {
        assert forall|j: int| 0 <= j < p.len() implies holds_position(p, ((#[trigger] pass_parts(p, i)[j]).0, pass_parts(p, i)[j].1)) by {
            assert(pass_parts(p, i)[j] == p[j]);
        }
    }
}

proof fn lemma_rounds_positions(p: Seq<(usize, usize, usize, usize)>, n: nat)
    ensures
        rounds_parts(p, n).len() == p.len(),
        forall|j: int|
            0 <= j < p.len() ==> holds_position(p, ((#[trigger] rounds_parts(p, n)[j]).0, rounds_parts(p, n)[j].1)),
    decreases n,
{
    if n > 0 && pass_exchanges(p, 0) {
        let q = pass_parts(p, 0);
        lemma_pass_positions(p, 0);
        lemma_rounds_positions(q, (n - 1) as nat);
        let r = rounds_parts(q, (n - 1) as nat);
        assert forall|j: int| 0 <= j < p.len() implies holds_position(p, ((#[trigger] r[j]).0, r[j].1)) by {
            assert(holds_position(q, (r[j].0, r[j].1)));
            let m = choose|m: int| 0 <= m < q.len() && (#[trigger] q[m]).0 == r[j].0 && q[m].1 == r[j].1;
            assert(holds_position(p, (q[m].0, q[m].1)));
        }
    } else {
        assert forall|j: int| 0 <= j < p.len() implies holds_position(p, ((#[trigger] rounds_parts(p, n)[j]).0, rounds_parts(p, n)[j].1)) by {
            assert(rounds_parts(p, n)[j] == p[j]);
        }
    }
}

/// A pass changes no position that the list does not name.
proof fn lemma_pass_frame(sched: Seq<Seq<usize>>, p: Seq<(usize, usize, usize, usize)>, i: nat)
    requires
        parts_valid(sched, p),
    ensures
        same_shape(sched, ordering_pass(sched, p, i)),
        forall|q: (usize, usize)|
            valid_pos(sched, q) && !holds_position(p, q) ==> #[trigger] at(ordering_pass(sched, p, i), q) == at(sched, q),
    decreases p.len() - i,
{
    if i + 1 < p.len() {
        let a = p[i as int];
        let b = p[i as int + 1];
        if a.0 > b.0 {
            let pa = (a.0, a.1);
            let pb = (b.0, b.1);
            let next = swap_at(sched, pa, pb);
            let np = p.update(i as int, (b.0, b.1, a.2, a.3)).update(i as int + 1, (a.0, a.1, b.2, b.3));
            assert(valid_pos(sched, (p[i as int].0, p[i as int].1)));
            assert(valid_pos(sched, (p[i as int + 1].0, p[i as int + 1].1)));
            lemma_swap_rearranges(sched, pa, pb);
            assert forall|j: int| 0 <= j < np.len() implies valid_pos(next, (#[trigger] np[j].0, np[j].1)) by {
                if j != i && j != i + 1 {
                    assert(np[j] == p[j]);
                    assert(valid_pos(sched, (p[j].0, p[j].1)));
                }
            }
            lemma_pass_frame(next, np, i + 1);
            assert forall|q: (usize, usize)| valid_pos(sched, q) && !holds_position(p, q) implies #[trigger] at(
                ordering_pass(sched, p, i),
                q,
            ) == at(sched, q) by {
                if holds_position(np, q) {
                    let m = choose|m: int| 0 <= m < np.len() && (#[trigger] np[m]).0 == q.0 && np[m].1 == q.1;
                    if m == i {
                        assert(p[i as int + 1].0 == q.0 && p[i as int + 1].1 == q.1);
                    } else if m == i + 1 {
                        assert(p[i as int].0 == q.0 && p[i as int].1 == q.1);
                    } else {
                        assert(np[m] == p[m]);
                    }
                }
                assert(q != pa) by {
                    if q == pa {
                        assert(p[i as int].0 == q.0 && p[i as int].1 == q.1);
                    }
                }
                assert(q != pb) by {
                    if q == pb {
                        assert(p[i as int + 1].0 == q.0 && p[i as int + 1].1 == q.1);
                    }
                }
                let s1 = write_at(sched, pa, at(sched, pb));
                lemma_write_elsewhere(sched, pa, at(sched, pb), q);
                assert(s1[pb.0 as int].len() == sched[pb.0 as int].len());
                assert(s1[q.0 as int].len() == sched[q.0 as int].len());
                lemma_write_elsewhere(s1, pb, at(sched, pa), q);
                assert(next[q.0 as int].len() == sched[q.0 as int].len());
            }
        } else {
            lemma_pass_frame(sched, p, i + 1);
        }
    } else {
        lemma_rearranged_refl(sched);
    }
}

proof fn lemma_rounds_frame(sched: Seq<Seq<usize>>, p: Seq<(usize, usize, usize, usize)>, n: nat)
    requires
        parts_valid(sched, p),
    ensures
        same_shape(sched, ordering_rounds(sched, p, n)),
        forall|q: (usize, usize)|
            valid_pos(sched, q) && !holds_position(p, q) ==> #[trigger] at(ordering_rounds(sched, p, n), q) == at(sched, q),
    decreases n,
{
    if n > 0 && pass_exchanges(p, 0) {
        let s1 = ordering_pass(sched, p, 0);
        let q1 = pass_parts(p, 0);
        lemma_pass_frame(sched, p, 0);
        lemma_ordering_pass_rearranges(sched, p, 0);
        lemma_pass_positions(p, 0);
        assert(parts_valid(s1, q1)) by {
            assert forall|j: int| 0 <= j < q1.len() implies valid_pos(s1, (#[trigger] q1[j].0, q1[j].1)) by {
                assert(holds_position(p, (q1[j].0, q1[j].1)));
                let m = choose|m: int| 0 <= m < p.len() && (#[trigger] p[m]).0 == q1[j].0 && p[m].1 == q1[j].1;
                assert(valid_pos(sched, (p[m].0, p[m].1)));
                assert(s1[q1[j].0 as int].len() == sched[q1[j].0 as int].len());
            }
        }
        lemma_rounds_frame(s1, q1, (n - 1) as nat);
        assert forall|q: (usize, usize)| valid_pos(sched, q) && !holds_position(p, q) implies #[trigger] at(
            ordering_rounds(sched, p, n),
            q,
        ) == at(sched, q) by {
            if holds_position(q1, q) {
                let m = choose|m: int| 0 <= m < q1.len() && (#[trigger] q1[m]).0 == q.0 && q1[m].1 == q.1;
                assert(holds_position(p, (q1[m].0, q1[m].1)));
            }
            assert(s1[q.0 as int].len() == sched[q.0 as int].len());
            assert(at(s1, q) == at(sched, q));
        }
        assert(same_shape(sched, ordering_rounds(sched, p, n)));
    } else {
        lemma_rearranged_refl(sched);
    }
}

/// Parts of two different series are never at one position of the schedule
/// they were read from.
proof fn lemma_series_positions_disjoint(
    ms: Seq<Minisymposium>,
    sched: Seq<Seq<usize>>,
    b: Seq<char>,
    c: Seq<char>,
    q: (usize, usize),
)
    requires
        well_sized(sched),
        b != c,
    ensures
        !(holds_position(series_parts(ms, sched, b), q) && holds_position(series_parts(ms, sched, c), q)),
{
    let fl = flat(sched);
    let pb = series_parts(ms, sched, b);
    let pc = series_parts(ms, sched, c);
    if holds_position(pb, q) && holds_position(pc, q) {
        lemma_series_parts_distinct(ms, sched, b, fl.len());
        lemma_series_parts_distinct(ms, sched, c, fl.len());
        lemma_flat_positions_distinct(sched, sched.len());
        let i = choose|i: int| 0 <= i < pb.len() && (#[trigger] pb[i]).0 == q.0 && pb[i].1 == q.1;
        let j = choose|j: int| 0 <= j < pc.len() && (#[trigger] pc[j]).0 == q.0 && pc[j].1 == q.1;
        let k1 = choose|k: int| 0 <= k < fl.len() && (#[trigger] pb[i]).0 == fl[k].0 && pb[i].1 == fl[k].1 && entry_base(ms, fl[k]) == Some(b);
        let k2 = choose|k: int| 0 <= k < fl.len() && (#[trigger] pc[j]).0 == fl[k].0 && pc[j].1 == fl[k].1 && entry_base(ms, fl[k]) == Some(c);
        if k1 < k2 {
            assert(fl[k1].0 < fl[k2].0 || (fl[k1].0 == fl[k2].0 && fl[k1].1 < fl[k2].1));
        } else if k2 < k1 {
            assert(fl[k2].0 < fl[k1].0 || (fl[k2].0 == fl[k1].0 && fl[k2].1 < fl[k1].1));
        }
    }
}

/// The list that says where the parts of series `base` are once the series
/// of the first `k` entries of `orig` have been put in order: the list of
/// its parts after the ordering passes if one of those entries is a part of
/// it, else its parts as read from `orig`.
pub open spec fn listed_parts(ms: Seq<Minisymposium>, orig: Seq<Seq<usize>>, base: Seq<char>, k: int) -> Seq<
    (usize, usize, usize, usize),
> {
    let p = series_parts(ms, orig, base);
    if exists|j: int| 0 <= j < k && #[trigger] entry_base(ms, flat(orig)[j]) == Some(base) {
        rounds_parts(p, p.len())
    } else {
        p
    }
}

/// The parts of series `base` of `orig` sit in `sched` in the order of their
/// part numbers: the parts as read are listed by part number, the list after
/// the ordering passes keeps each entry's part number and minisymposium,
/// `sched` holds each where that list says, and no part there is in a later
/// slot than a part after it in the list, so a part with a lower number is
/// never in a later slot.
pub open spec fn series_in_order(ms: Seq<Minisymposium>, orig: Seq<Seq<usize>>, sched: Seq<Seq<usize>>, base: Seq<char>) -> bool {
    let p = series_parts(ms, orig, base);
    let q = rounds_parts(p, p.len());
    &&& number_ordered(p)
    &&& slot_ordered(q)
    &&& same_parts(p, q)
    &&& parts_in_place(sched, q)
}

proof fn lemma_fixed_upto_in_place(ms: Seq<Minisymposium>, orig: Seq<Seq<usize>>, k: nat)
    requires
        well_sized(orig),
        k <= flat(orig).len(),
    ensures
        forall|base: Seq<char>| #[trigger] parts_in_place(ordering_fixed_upto(ms, orig, k), listed_parts(ms, orig, base, k as int)),
    decreases k,
{
    let fl = flat(orig);
    if k == 0 {
        assert forall|base: Seq<char>| #[trigger] parts_in_place(ordering_fixed_upto(ms, orig, k), listed_parts(ms, orig, base, k as int)) by {
            lemma_series_parts_in_place(ms, orig, base, fl.len());
        }
    } else {
        let k0 = (k - 1) as int;
        lemma_fixed_upto_in_place(ms, orig, (k - 1) as nat);
        let cur = ordering_fixed_upto(ms, orig, (k - 1) as nat);
        let next = ordering_fixed_upto(ms, orig, k);
        if first_of_series(ms, fl, k0) {
            let b = entry_base(ms, fl[k0])->0;
            let pb = series_parts(ms, orig, b);
            assert(next == ordering_rounds(cur, pb, pb.len()));
            assert(listed_parts(ms, orig, b, k0) == pb) by {
                if exists|j: int| 0 <= j < k0 && #[trigger] entry_base(ms, fl[j]) == Some(b) {
                    let j = choose|j: int| 0 <= j < k0 && #[trigger] entry_base(ms, fl[j]) == Some(b);
                    assert(entry_base(ms, fl[j]) != entry_base(ms, fl[k0]));
                }
            }
            assert(parts_in_place(cur, listed_parts(ms, orig, b, k0)));
            lemma_series_parts_positions(ms, orig, b);
            lemma_rounds_track(cur, pb, pb.len());
            lemma_rounds_frame(cur, pb, pb.len());
            assert forall|base: Seq<char>| #[trigger] parts_in_place(next, listed_parts(ms, orig, base, k as int)) by {
                if base == b {
                    assert(entry_base(ms, fl[k0]) == Some(b));
                } else {
                    let lc = listed_parts(ms, orig, base, k0);
                    let pc = series_parts(ms, orig, base);
                    assert(listed_parts(ms, orig, base, k as int) == lc) by {
                        if exists|j: int| 0 <= j < k && #[trigger] entry_base(ms, fl[j]) == Some(base) {
                            let j = choose|j: int| 0 <= j < k && #[trigger] entry_base(ms, fl[j]) == Some(base);
                            assert(j != k0);
                        }
                    }
                    assert(parts_in_place(cur, lc));
                    lemma_rounds_positions(pc, pc.len());
                    assert forall|j: int| 0 <= j < lc.len() implies valid_pos(next, (#[trigger] lc[j].0, lc[j].1)) && at(
                        next,
                        (lc[j].0, lc[j].1),
                    ) == lc[j].3 by {
                        let q = (lc[j].0, lc[j].1);
                        assert(valid_pos(cur, (lc[j].0, lc[j].1)));
                        assert(holds_position(pc, q)) by {
                            if lc != pc {
                                assert(lc == rounds_parts(pc, pc.len()));
                                assert(holds_position(pc, ((rounds_parts(pc, pc.len())[j]).0, rounds_parts(pc, pc.len())[j].1)));
                            } else {
                                assert(pc[j].0 == q.0 && pc[j].1 == q.1);
                            }
                        }
                        lemma_series_positions_disjoint(ms, orig, b, base, q);
                        assert(next[q.0 as int].len() == cur[q.0 as int].len());
                    }
                }
            }
        } else {
            assert(next == cur);
            assert forall|base: Seq<char>| #[trigger] parts_in_place(next, listed_parts(ms, orig, base, k as int)) by {
                assert(listed_parts(ms, orig, base, k as int) == listed_parts(ms, orig, base, k0)) by {
                    let now = exists|j: int| 0 <= j < k && #[trigger] entry_base(ms, fl[j]) == Some(base);
                    let before = exists|j: int| 0 <= j < k0 && #[trigger] entry_base(ms, fl[j]) == Some(base);
                    if now && !before {
                        let j = choose|j: int| 0 <= j < k && #[trigger] entry_base(ms, fl[j]) == Some(base);
                        assert(j == k0);
                        assert(!first_of_series(ms, fl, k0));
                        let i = choose|i: int| 0 <= i < k0 && #[trigger] entry_base(ms, fl[i]) == entry_base(ms, fl[k0]);
                        assert(entry_base(ms, fl[i]) == Some(base));
                    }
                    if before {
                        let j = choose|j: int| 0 <= j < k0 && #[trigger] entry_base(ms, fl[j]) == Some(base);
                        assert(0 <= j < k);
                    }
                }
            }
        }
    }
}

/// A pass that makes no exchange changes nothing.
proof fn lemma_quiet_pass(sched: Seq<Seq<usize>>, parts: Seq<(usize, usize, usize, usize)>, i: nat)
    requires
        !pass_exchanges(parts, i),
    ensures
        ordering_pass(sched, parts, i) == sched,
        pass_parts(parts, i) == parts,
    decreases parts.len() - i,
{
    if i + 1 < parts.len() {
        lemma_quiet_pass(sched, parts, i + 1);
    }
}

/// Entry `k` holds the first part (in schedule order) of its series.
pub open spec fn first_of_series(ms: Seq<Minisymposium>, fl: Seq<(usize, usize, usize)>, k: int) -> bool {
    &&& entry_base(ms, fl[k]) is Some
    &&& forall|j: int| 0 <= j < k ==> #[trigger] entry_base(ms, fl[j]) != entry_base(ms, fl[k])
}

/// The schedule after the ordering passes of every series whose first part
/// is among the first `end` entries of `orig`, series by series; the parts
/// are those of `orig`.
pub open spec fn ordering_fixed_upto(ms: Seq<Minisymposium>, orig: Seq<Seq<usize>>, end: nat) -> Seq<Seq<usize>>
    decreases end,
{
    if end == 0 {
        orig
    } else {
        let prev = ordering_fixed_upto(ms, orig, (end - 1) as nat);
        let fl = flat(orig);
        if first_of_series(ms, fl, end - 1) {
            let parts = series_parts(ms, orig, entry_base(ms, fl[end - 1])->0);
            ordering_rounds(prev, parts, parts.len())
        } else {
            prev
        }
    }
}

/// The schedule after fixing the order of every series.
pub open spec fn ordering_fixed(ms: Seq<Minisymposium>, orig: Seq<Seq<usize>>) -> Seq<Seq<usize>> {
    ordering_fixed_upto(ms, orig, flat(orig).len())
}

/// The positions of the parts are positions of the schedule.
pub open spec fn parts_valid(sched: Seq<Seq<usize>>, parts: Seq<(usize, usize, usize, usize)>) -> bool {
    forall|j: int| 0 <= j < parts.len() ==> valid_pos(sched, (#[trigger] parts[j].0, parts[j].1))
}

proof fn lemma_ordering_pass_rearranges(sched: Seq<Seq<usize>>, parts: Seq<(usize, usize, usize, usize)>, i: nat)
    requires
        parts_valid(sched, parts),
    ensures
        rearranged(sched, ordering_pass(sched, parts, i)),
    decreases parts.len() - i,
{
    if i + 1 >= parts.len() {
        lemma_rearranged_refl(sched);
    } else {
        let a = parts[i as int];
        let b = parts[i as int + 1];
        if a.0 > b.0 {
            let next = swap_at(sched, (a.0, a.1), (b.0, b.1));
            let np = parts.update(i as int, (b.0, b.1, a.2, a.3)).update(i as int + 1, (a.0, a.1, b.2, b.3));
            assert(valid_pos(sched, (parts[i as int].0, parts[i as int].1)));
            assert(valid_pos(sched, (parts[i as int + 1].0, parts[i as int + 1].1)));
            lemma_swap_rearranges(sched, (a.0, a.1), (b.0, b.1));
            assert forall|j: int| 0 <= j < np.len() implies valid_pos(next, (#[trigger] np[j].0, np[j].1)) by {
                if j == i {
                } else if j == i + 1 {
                } else {
                    assert(np[j] == parts[j]);
                    assert(valid_pos(sched, (parts[j].0, parts[j].1)));
                }
            }
            lemma_ordering_pass_rearranges(next, np, i + 1);
            lemma_rearranged_trans(sched, next, ordering_pass(next, np, i + 1));
        } else {
            lemma_ordering_pass_rearranges(sched, parts, i + 1);
        }
    }
}

/// Runs the ordering pass on `schedule` for `ps`, moving the parts in `ps`
/// with their minisymposia; tells whether it made an exchange.
fn ordering_pass_exec(schedule: &mut Vec<Vec<usize>>, ps: &mut Vec<(usize, usize, usize, usize)>) -> (changed: bool)
    requires
        parts_valid(slots(old(schedule)@), old(ps)@),
    ensures
        slots(final(schedule)@) == ordering_pass(slots(old(schedule)@), old(ps)@, 0),
        final(ps)@ == pass_parts(old(ps)@, 0),
        changed == pass_exchanges(old(ps)@, 0),
        parts_valid(slots(final(schedule)@), final(ps)@),
{
    let ghost s0 = slots(schedule@);
    let ghost p0 = ps@;
    let mut changed = false;
    let mut i: usize = 0;
    while ps.len() > 0 && i < ps.len() - 1
        invariant
            ps@.len() == p0.len(),
            i <= ps@.len(),
            parts_valid(slots(schedule@), ps@),
            ordering_pass(s0, p0, 0) == ordering_pass(slots(schedule@), ps@, i as nat),
            pass_parts(p0, 0) == pass_parts(ps@, i as nat),
            pass_exchanges(p0, 0) == (changed || pass_exchanges(ps@, i as nat)),
        decreases ps.len() - i,
    {
        let (time1, room1, part1, m1) = ps[i];
        let (time2, room2, part2, m2) = ps[i + 1];
        if time1 > time2 {
            let ghost before = slots(schedule@);
            proof {
                assert(valid_pos(before, (ps@[i as int].0, ps@[i as int].1)));
                assert(valid_pos(before, (ps@[i + 1].0, ps@[i + 1].1)));
            }
            apply_swap(schedule, (time1, room1), (time2, room2));
            let ghost old_ps = ps@;
            ps.set(i, (time2, room2, part1, m1));
            ps.set(i + 1, (time1, room1, part2, m2));
            changed = true;
            proof {
                assert(ps@ == old_ps.update(i as int, (time2, room2, part1, m1)).update(i + 1, (time1, room1, part2, m2)));
                assert forall|j: int| 0 <= j < ps@.len() implies valid_pos(slots(schedule@), (#[trigger] ps@[j].0, ps@[j].1)) by {
                    if j != i && j != i + 1 {
                        assert(ps@[j] == old_ps[j]);
                        assert(valid_pos(before, (old_ps[j].0, old_ps[j].1)));
                    }
                }
            }
        }
        i = i + 1;
    }
    changed
}

/// Runs ordering passes for `parts` until one makes no exchange, at most as
/// many as there are parts.
fn ordering_rounds_exec(schedule: &mut Vec<Vec<usize>>, parts: &Vec<(usize, usize, usize, usize)>)
    requires
        parts_valid(slots(old(schedule)@), parts@),
    ensures
        slots(final(schedule)@) == ordering_rounds(slots(old(schedule)@), parts@, parts@.len()),
        rearranged(slots(old(schedule)@), slots(final(schedule)@)),
{
    let ghost s0 = slots(schedule@);
    let ghost target = ordering_rounds(s0, parts@, parts@.len());
    proof {
        lemma_rearranged_refl(s0);
    }
    let mut ps = copy_parts(parts);
    let mut n: usize = parts.len();
    let mut done = false;
    while n > 0 && !done
        invariant
            parts_valid(slots(schedule@), ps@),
            rearranged(s0, slots(schedule@)),
            done ==> slots(schedule@) == target,
            !done ==> target == ordering_rounds(slots(schedule@), ps@, n as nat),
        decreases n,
    {
        let ghost s1 = slots(schedule@);
        let ghost p1 = ps@;
        proof {
            lemma_ordering_pass_rearranges(s1, p1, 0);
        }
        let changed = ordering_pass_exec(schedule, &mut ps);
        proof {
            lemma_rearranged_trans(s0, s1, slots(schedule@));
            if !changed {
                lemma_quiet_pass(s1, p1, 0);
            }
        }
        if !changed {
            done = true;
        }
        n = n - 1;
    }
}

/// A copy of a list of parts.
fn copy_parts(parts: &Vec<(usize, usize, usize, usize)>) -> (r: Vec<(usize, usize, usize, usize)>)
    ensures
        r@ == parts@,
{
    let mut r: Vec<(usize, usize, usize, usize)> = Vec::new();
    let mut i: usize = 0;
    while i < parts.len()
        invariant
            i <= parts@.len(),
            r@ == parts@.take(i as int),
        decreases parts.len() - i,
    {
        r.push(parts[i]);
        i = i + 1;
        assert(r@ =~= parts@.take(i as int));
    }
    assert(parts@.take(parts@.len() as int) =~= parts@);
    r
}

/// The series information of each entry: base title and part number of
/// its minisymposium's title, when it names a part of a series.
fn series_infos(fl: &Vec<(usize, usize, usize)>, all_sessions: &[Minisymposium]) -> (infos: Vec<Option<(String, usize)>>)
    ensures
        infos@.len() == fl@.len(),
        forall|j: int|
            0 <= j < fl@.len() ==> match #[trigger] infos@[j] {
                Some(x) => entry_series(all_sessions@, fl@[j]) == Some((x.0@, x.1 as nat)),
                None => entry_series(all_sessions@, fl@[j]) is None,
            },
{
    let mut infos: Vec<Option<(String, usize)>> = Vec::new();
    let mut k: usize = 0;
    while k < fl.len()
        invariant
            k <= fl@.len(),
            infos@.len() == k,
            forall|j: int|
                0 <= j < k ==> match #[trigger] infos@[j] {
                    Some(x) => entry_series(all_sessions@, fl@[j]) == Some((x.0@, x.1 as nat)),
                    None => entry_series(all_sessions@, fl@[j]) is None,
                },
        decreases fl.len() - k,
    {
        let e = fl[k];
        if e.2 < all_sessions.len() {
            infos.push(extract_series_info(all_sessions[e.2].title.as_str()));
        } else {
            infos.push(None);
        }
        k = k + 1;
    }
    infos
}

/// Puts the parts of every series in chronological order: for each series
/// (in order of its first part), the parts are sorted by part number and,
/// going through consecutive parts, any part held in a later slot than the
/// next part is exchanged with it; such passes are repeated until one makes
/// no exchange (at most as many passes as the series has parts). Afterwards
/// every series is in order: a part with a lower number is never in a later
/// slot (see `series_in_order`).
pub fn fix_series_ordering(schedule: &mut Vec<Vec<usize>>, all_sessions: &[Minisymposium])
    ensures
        slots(final(schedule)@) == ordering_fixed(all_sessions@, slots(old(schedule)@)),
        rearranged(slots(old(schedule)@), slots(final(schedule)@)),
        forall|base: Seq<char>| #[trigger] series_in_order(all_sessions@, slots(old(schedule)@), slots(final(schedule)@), base),
{
    let ghost orig = slots(schedule@);
    let ghost ms = all_sessions@;
    let fl = schedule_entries(schedule);
    proof {
        lemma_slots_well_sized(*schedule);
        lemma_flat_len(orig, orig.len());
        lemma_rearranged_refl(orig);
    }
    let infos = series_infos(&fl, all_sessions);
    let mut k: usize = 0;
    while k < fl.len()
        invariant
            ms == all_sessions@,
            fl@ == flat(orig),
            well_sized(orig),
            infos@.len() == fl@.len(),
            forall|j: int|
                0 <= j < fl@.len() ==> match #[trigger] infos@[j] {
                    Some(x) => entry_series(ms, fl@[j]) == Some((x.0@, x.1 as nat)),
                    None => entry_series(ms, fl@[j]) is None,
                },
            k <= fl@.len(),
            slots(schedule@) == ordering_fixed_upto(ms, orig, k as nat),
            rearranged(orig, slots(schedule@)),
        decreases fl.len() - k,
    {
        match &infos[k] {
            Some(x) => {
                let mut first = true;
                let mut j: usize = 0;
                while j < k
                    invariant
                        j <= k,
                        k < fl@.len(),
                        infos@.len() == fl@.len(),
                        forall|j: int|
                            0 <= j < fl@.len() ==> match #[trigger] infos@[j] {
                                Some(x) => entry_series(ms, fl@[j]) == Some((x.0@, x.1 as nat)),
                                None => entry_series(ms, fl@[j]) is None,
                            },
                        infos@[k as int] == Some(*x),
                        first == forall|i: int| 0 <= i < j ==> #[trigger] entry_base(ms, fl@[i]) != entry_base(ms, fl@[k as int]),
                    decreases k - j,
                {
                    assert(entry_base(ms, fl@[k as int]) == Some(x.0@));
                    match &infos[j] {
                        Some(y) => {
                            assert(entry_base(ms, fl@[j as int]) == Some(y.0@));
                            if y.0 == x.0 {
                                first = false;
                            }
                        },
                        None => {
                            assert(entry_base(ms, fl@[j as int]) is None);
                        },
                    }
                    j = j + 1;
                }
                assert(first == first_of_series(ms, fl@, k as int));
                if first {
                    let parts = collect_parts(&fl, &infos, &x.0, all_sessions);
                    proof {
                        lemma_series_parts_in_place(ms, orig, x.0@, fl@.len() as nat);
                        assert forall|i: int| 0 <= i < parts@.len() implies valid_pos(slots(schedule@), (#[trigger] parts@[i].0, parts@[i].1)) by {
                            assert(valid_pos(orig, (parts@[i].0, parts@[i].1)));
                        }
                    }
                    let ghost before = slots(schedule@);
                    ordering_rounds_exec(schedule, &parts);
                    proof {
                        lemma_rearranged_trans(orig, before, slots(schedule@));
                    }
                }
            },
            None => {
                assert(!first_of_series(ms, fl@, k as int));
            },
        }
        k = k + 1;
    }
    proof {
        lemma_flat_len(orig, orig.len());
        lemma_fixed_upto_in_place(ms, orig, fl@.len() as nat);
        assert forall|base: Seq<char>| #[trigger] series_in_order(ms, orig, slots(schedule@), base) by {
            let p = series_parts(ms, orig, base);
            lemma_series_parts_in_place(ms, orig, base, fl@.len() as nat);
            lemma_series_parts_positions(ms, orig, base);
            lemma_series_parts_sorted(ms, flat(orig), base, fl@.len() as nat);
            law_ordering_rounds_order_parts(orig, p);
            assert(parts_in_place(slots(schedule@), listed_parts(ms, orig, base, fl@.len() as int)));
            if !(exists|j: int| 0 <= j < fl@.len() && #[trigger] entry_base(ms, flat(orig)[j]) == Some(base)) {
                if p.len() > 0 {
                    lemma_series_parts_source(ms, flat(orig), base, fl@.len() as nat);
                }
                assert(rounds_parts(p, p.len()) == p);
            }
        }
    }
}

/// All parts of series `base` that the schedule holds are in one room.
pub open spec fn series_in_one_room(ms: Seq<Minisymposium>, sched: Seq<Seq<usize>>, base: Seq<char>) -> bool {
    forall|p: (usize, usize), q: (usize, usize)|
        valid_pos(sched, p) && valid_pos(sched, q) && #[trigger] entry_base(ms, (p.0, p.1, at(sched, p))) == Some(base)
            && #[trigger] entry_base(ms, (q.0, q.1, at(sched, q))) == Some(base) ==> p.1 == q.1
}

/// Whether all parts of series `series_base` that the schedule holds are in
/// one room.
pub fn is_series_consolidated(series_base: &str, schedule: &Vec<Vec<usize>>, all_sessions: &[Minisymposium]) -> (r: bool)
    ensures
        r == series_in_one_room(all_sessions@, slots(schedule@), series_base@),
{
    let ghost sched = slots(schedule@);
    let ghost ms = all_sessions@;
    let ghost base = series_base@;
    let base_chars = chars_of(series_base);
    let mut room: Option<usize> = None;
    let mut t: usize = 0;
    while t < schedule.len()
        invariant
            sched == slots(schedule@),
            ms == all_sessions@,
            base == series_base@,
            base_chars@ == base,
            t <= sched.len(),
            match room {
                Some(rm) => exists|p: (usize, usize)| valid_pos(sched, p) && p.0 < t && #[trigger] entry_base(ms, (p.0, p.1, at(sched, p))) == Some(base) && p.1 == rm,
                None => true,
            },
            forall|p: (usize, usize)|
                valid_pos(sched, p) && p.0 < t && #[trigger] entry_base(ms, (p.0, p.1, at(sched, p))) == Some(base)
                    ==> room == Some(p.1),
        decreases schedule.len() - t,
    {
        let mut r: usize = 0;
        while r < schedule[t].len()
            invariant
                sched == slots(schedule@),
                ms == all_sessions@,
                base == series_base@,
                base_chars@ == base,
                t < sched.len(),
                r <= sched[t as int].len(),
                match room {
                    Some(rm) => exists|p: (usize, usize)| valid_pos(sched, p) && (p.0 < t || (p.0 == t && p.1 < r)) && #[trigger] entry_base(ms, (p.0, p.1, at(sched, p))) == Some(base) && p.1 == rm,
                    None => true,
                },
                forall|p: (usize, usize)|
                    valid_pos(sched, p) && (p.0 < t || (p.0 == t && p.1 < r)) && #[trigger] entry_base(ms, (p.0, p.1, at(sched, p))) == Some(base)
                        ==> room == Some(p.1),
            decreases schedule@[t as int]@.len() - r,
        {
            let x = schedule[t][r];
            assert(x == at(sched, (t, r)));
            if x < all_sessions.len() {
                match extract_series_info(all_sessions[x].title.as_str()) {
                    Some(info) => {
                        let b = chars_of(info.0.as_str());
                        if seq_eq(&b, &base_chars) {
                            assert(entry_base(ms, (t, r, at(sched, (t, r)))) == Some(base));
                            match room {
                                Some(rm) => {
                                    if rm != r {
                                        proof {
                                            let p = choose|p: (usize, usize)| valid_pos(sched, p) && (p.0 < t || (p.0 == t && p.1 < r)) && #[trigger] entry_base(ms, (p.0, p.1, at(sched, p))) == Some(base) && p.1 == rm;
                                            assert(valid_pos(sched, (t, r)));
                                            assert(entry_base(ms, ((t, r).0, (t, r).1, at(sched, (t, r)))) == Some(base));
                                            assert(!series_in_one_room(ms, sched, base)) by {
                                                if series_in_one_room(ms, sched, base) {
                                                    assert(p.1 == (t, r).1);
                                                }
                                            }
                                        }
                                        return false;
                                    }
                                },
                                None => {
                                    room = Some(r);
                                },
                            }
                        } else {
                            assert(entry_base(ms, (t, r, at(sched, (t, r)))) != Some(base));
                        }
                    },
                    None => {
                        assert(entry_base(ms, (t, r, at(sched, (t, r)))) is None);
                    },
                }
            } else {
                assert(entry_base(ms, (t, r, at(sched, (t, r)))) is None);
            }
            r = r + 1;
        }
        t = t + 1;
    }
    true
}

// ===========================================================================
// Room consolidation
// ===========================================================================

/// The minisymposium `x` is a part of a series whose parts are all in one
/// room.
pub open spec fn in_consolidated_series(ms: Seq<Minisymposium>, sched: Seq<Seq<usize>>, x: usize) -> bool {
    x < ms.len() && match series_info(ms[x as int].title@) {
        Some(info) => series_in_one_room(ms, sched, info.0),
        None => false,
    }
}

/// Every slot of `b` holds what the same slot of `a` holds, in some order.
pub open spec fn rows_permuted(a: Seq<Seq<usize>>, b: Seq<Seq<usize>>) -> bool {
    a.len() == b.len() && forall|i: int| 0 <= i < a.len() ==> #[trigger] b[i].to_multiset() == a[i].to_multiset()
}

/// Exchanging two rooms of one slot keeps what every slot holds.
proof fn lemma_swap_in_row(sched: Seq<Seq<usize>>, t: usize, r: usize, o: usize)
    requires
        valid_pos(sched, (t, r)),
        valid_pos(sched, (t, o)),
        r != o,
    ensures
        rows_permuted(sched, swap_at(sched, (t, r), (t, o))),
{
    broadcast use vstd::seq_lib::to_multiset_update, vstd::seq_lib::to_multiset_contains, vstd::multiset::group_multiset_axioms;

    let s = sched[t as int];
    let u1 = s.update(r as int, s[o as int]);
    let u2 = u1.update(o as int, s[r as int]);
    assert(u1[o as int] == s[o as int]);
    assert(s.contains(s[r as int]));
    assert(s.to_multiset().count(s[r as int]) > 0);
    let m1 = s.to_multiset().insert(s[o as int]).remove(s[r as int]);
    assert(u1.to_multiset() == m1);
    assert(u2.to_multiset() == m1.insert(s[r as int]).remove(s[o as int]));
    assert(m1.insert(s[r as int]).remove(s[o as int]) =~= s.to_multiset());
    let w = swap_at(sched, (t, r), (t, o));
    assert(w[t as int] == u2);
    assert forall|i: int| 0 <= i < sched.len() implies #[trigger] w[i].to_multiset() == sched[i].to_multiset() by {
        if i != t {
            assert(w[i] == sched[i]);
        }
    }
}

proof fn lemma_rows_permuted_trans(a: Seq<Seq<usize>>, b: Seq<Seq<usize>>, c: Seq<Seq<usize>>)
    requires
        rows_permuted(a, b),
        rows_permuted(b, c),
    ensures
        rows_permuted(a, c),
{
    assert forall|i: int| 0 <= i < a.len() implies #[trigger] c[i].to_multiset() == a[i].to_multiset() by {
        assert(b[i].to_multiset() == a[i].to_multiset());
    }
}

/// One step of consolidation, taken on the schedule as it stands: the entry
/// at `(t, r)` is exchanged with what slot `t` holds in room `o` when the
/// entry is a part of a series, room `o` of slot `row` holds a part of the
/// same series, `o != r`, slot `t` has room `o`, and what room `o` of slot
/// `t` holds is not a part of a series already in one room.
pub open spec fn consolidation_step(
    ms: Seq<Minisymposium>,
    sched: Seq<Seq<usize>>,
    t: usize,
    r: usize,
    row: usize,
    o: usize,
) -> Seq<Seq<usize>> {
    let b = entry_base(ms, (t, r, at(sched, (t, r))));
    if valid_pos(sched, (t, r)) && valid_pos(sched, (row, o)) && valid_pos(sched, (t, o)) && r != o && b is Some
        && entry_base(ms, (row, o, at(sched, (row, o)))) == b && !in_consolidated_series(ms, sched, at(sched, (t, o))) {
        swap_at(sched, (t, r), (t, o))
    } else {
        sched
    }
}

/// A step of consolidation that changes the schedule leaves the moved part
/// in the room of the part of its series it was moved next to.
pub proof fn law_consolidation_step_joins_room(
    ms: Seq<Minisymposium>,
    sched: Seq<Seq<usize>>,
    t: usize,
    r: usize,
    row: usize,
    o: usize,
)
    requires
        consolidation_step(ms, sched, t, r, row, o) != sched,
    ensures
        entry_base(ms, (t, o, at(consolidation_step(ms, sched, t, r, row, o), (t, o)))) is Some,
        entry_base(ms, (t, o, at(consolidation_step(ms, sched, t, r, row, o), (t, o)))) == entry_base(
            ms,
            (row, o, at(consolidation_step(ms, sched, t, r, row, o), (row, o))),
        ),
{
    let s2 = consolidation_step(ms, sched, t, r, row, o);
    assert(s2 == swap_at(sched, (t, r), (t, o)));
    assert(at(s2, (t, o)) == at(sched, (t, r)));
    if row != t {
        assert(s2[row as int] == sched[row as int]);
    }
}

/// The steps for the entry at `(t, r)` against the rooms `o < end` of slot
/// `row`, one after the other.
pub open spec fn row_pass(ms: Seq<Minisymposium>, sched: Seq<Seq<usize>>, t: usize, r: usize, row: usize, end: nat) -> Seq<
    Seq<usize>,
>
    decreases end,
{
    if end == 0 {
        sched
    } else {
        consolidation_step(ms, row_pass(ms, sched, t, r, row, (end - 1) as nat), t, r, row, (end - 1) as usize)
    }
}

/// The steps for the entry at `(t, r)`: against the slot before, then
/// against the slot after.
pub open spec fn entry_pass(ms: Seq<Minisymposium>, sched: Seq<Seq<usize>>, t: usize, r: usize) -> Seq<Seq<usize>> {
    let s1 = if t > 0 {
        row_pass(ms, sched, t, r, (t - 1) as usize, sched[t - 1].len())
    } else {
        sched
    };
    if t + 1 < s1.len() {
        row_pass(ms, s1, t, r, (t + 1) as usize, s1[t + 1].len())
    } else {
        s1
    }
}

/// The steps for the rooms `r < end` of slot `t`, room by room.
pub open spec fn slot_pass(ms: Seq<Minisymposium>, sched: Seq<Seq<usize>>, t: usize, end: nat) -> Seq<Seq<usize>>
    decreases end,
{
    if end == 0 {
        sched
    } else {
        entry_pass(ms, slot_pass(ms, sched, t, (end - 1) as nat), t, (end - 1) as usize)
    }
}

/// The schedule after consolidating the slots `t < end`, slot by slot.
pub open spec fn consolidated(ms: Seq<Minisymposium>, sched: Seq<Seq<usize>>, end: nat) -> Seq<Seq<usize>>
    decreases end,
{
    if end == 0 {
        sched
    } else {
        let prev = consolidated(ms, sched, (end - 1) as nat);
        slot_pass(ms, prev, (end - 1) as usize, prev[end - 1].len())
    }
}

/// A step of consolidation keeps a series that is in one room in one room:
/// it moves only a part of a series whose parts are in different rooms, and
/// never a part of a series in one room.
proof fn lemma_step_keeps_room(
    ms: Seq<Minisymposium>,
    sched: Seq<Seq<usize>>,
    t: usize,
    r: usize,
    row: usize,
    o: usize,
    c: Seq<char>,
)
    requires
        series_in_one_room(ms, sched, c),
    ensures
        series_in_one_room(ms, consolidation_step(ms, sched, t, r, row, o), c),
{
    let s2 = consolidation_step(ms, sched, t, r, row, o);
    if s2 != sched {
        let b = entry_base(ms, (t, r, at(sched, (t, r))));
        assert(s2 == swap_at(sched, (t, r), (t, o)));
        let x = at(sched, (t, o));
        assert(!in_consolidated_series(ms, sched, x));
        assert forall|p: (usize, usize)|
            valid_pos(s2, p) && #[trigger] entry_base(ms, (p.0, p.1, at(s2, p))) == Some(c) implies valid_pos(sched, p)
            && entry_base(ms, (p.0, p.1, at(sched, p))) == Some(c) by {
            assert(sched[p.0 as int].len() == s2[p.0 as int].len());
            if p == (t, r) {
                assert(at(s2, p) == x);
                assert(entry_base(ms, (t, o, x)) == Some(c));
                assert(in_consolidated_series(ms, sched, x));
            } else if p == (t, o) {
                assert(at(s2, p) == at(sched, (t, r)));
                assert(b == Some(c));
                assert(entry_base(ms, (row, o, at(sched, (row, o)))) == Some(c));
                assert(entry_base(ms, (t, r, at(sched, (t, r)))) == Some(c));
                assert(r == o);
            } else {
                lemma_write_elsewhere(sched, (t, r), at(sched, (t, o)), p);
                let s1 = write_at(sched, (t, r), at(sched, (t, o)));
                assert(s1[t as int].len() == sched[t as int].len());
                assert(s1[p.0 as int].len() == sched[p.0 as int].len());
                lemma_write_elsewhere(s1, (t, o), at(sched, (t, r)), p);
            }
        }
        assert forall|p: (usize, usize), q: (usize, usize)|
            valid_pos(s2, p) && valid_pos(s2, q) && #[trigger] entry_base(ms, (p.0, p.1, at(s2, p))) == Some(c)
                && #[trigger] entry_base(ms, (q.0, q.1, at(s2, q))) == Some(c) implies p.1 == q.1 by {
            assert(entry_base(ms, (p.0, p.1, at(sched, p))) == Some(c));
            assert(entry_base(ms, (q.0, q.1, at(sched, q))) == Some(c));
        }
    }
}

proof fn lemma_row_pass_keeps_room(
    ms: Seq<Minisymposium>,
    sched: Seq<Seq<usize>>,
    t: usize,
    r: usize,
    row: usize,
    end: nat,
    c: Seq<char>,
)
    requires
        series_in_one_room(ms, sched, c),
    ensures
        series_in_one_room(ms, row_pass(ms, sched, t, r, row, end), c),
    decreases end,
{
    if end > 0 {
        lemma_row_pass_keeps_room(ms, sched, t, r, row, (end - 1) as nat, c);
        lemma_step_keeps_room(ms, row_pass(ms, sched, t, r, row, (end - 1) as nat), t, r, row, (end - 1) as usize, c);
    }
}

proof fn lemma_slot_pass_keeps_room(ms: Seq<Minisymposium>, sched: Seq<Seq<usize>>, t: usize, end: nat, c: Seq<char>)
    requires
        series_in_one_room(ms, sched, c),
    ensures
        series_in_one_room(ms, slot_pass(ms, sched, t, end), c),
    decreases end,
{
    if end > 0 {
        lemma_slot_pass_keeps_room(ms, sched, t, (end - 1) as nat, c);
        let s0 = slot_pass(ms, sched, t, (end - 1) as nat);
        let r = (end - 1) as usize;
        let s1 = if t > 0 {
            row_pass(ms, s0, t, r, (t - 1) as usize, s0[t - 1].len())
        } else {
            s0
        };
        if t > 0 {
            lemma_row_pass_keeps_room(ms, s0, t, r, (t - 1) as usize, s0[t - 1].len(), c);
        }
        if t + 1 < s1.len() {
            lemma_row_pass_keeps_room(ms, s1, t, r, (t + 1) as usize, s1[t + 1].len(), c);
        }
    }
}

/// Consolidation never breaks up a series whose parts are already in one
/// room.
pub proof fn law_consolidation_keeps_series_in_one_room(ms: Seq<Minisymposium>, sched: Seq<Seq<usize>>, c: Seq<char>, end: nat)
    requires
        series_in_one_room(ms, sched, c),
    ensures
        series_in_one_room(ms, consolidated(ms, sched, end), c),
    decreases end,
{
    if end > 0 {
        law_consolidation_keeps_series_in_one_room(ms, sched, c, (end - 1) as nat);
        let prev = consolidated(ms, sched, (end - 1) as nat);
        lemma_slot_pass_keeps_room(ms, prev, (end - 1) as usize, prev[end - 1].len(), c);
    }
}

/// Takes one step of consolidation.
fn consolidation_step_exec(
    schedule: &mut Vec<Vec<usize>>,
    all_sessions: &[Minisymposium],
    t: usize,
    r: usize,
    row: usize,
    o: usize,
)
    requires
        valid_pos(slots(old(schedule)@), (t, r)),
        valid_pos(slots(old(schedule)@), (row, o)),
    ensures
        slots(final(schedule)@) == consolidation_step(all_sessions@, slots(old(schedule)@), t, r, row, o),
        rearranged(slots(old(schedule)@), slots(final(schedule)@)),
        rows_permuted(slots(old(schedule)@), slots(final(schedule)@)),
{
    let ghost sched = slots(schedule@);
    let ghost ms = all_sessions@;
    proof {
        lemma_rearranged_refl(sched);
    }
    let x = schedule[t][r];
    assert(x == at(sched, (t, r)));
    if x >= all_sessions.len() || r == o || o >= schedule[t].len() {
        return;
    }
    let info = match extract_series_info(all_sessions[x].title.as_str()) {
        Some(info) => info,
        None => {
            return;
        },
    };
    let b = chars_of(info.0.as_str());
    assert(entry_base(ms, (t, r, at(sched, (t, r)))) == Some(b@));
    let other = schedule[row][o];
    assert(other == at(sched, (row, o)));
    if other >= all_sessions.len() {
        return;
    }
    let matches = match extract_series_info(all_sessions[other].title.as_str()) {
        Some(oinfo) => {
            let ob = chars_of(oinfo.0.as_str());
            seq_eq(&ob, &b)
        },
        None => false,
    };
    assert(matches == (entry_base(ms, (row, o, at(sched, (row, o)))) == Some(b@)));
    if !matches {
        return;
    }
    let blocking = schedule[t][o];
    assert(blocking == at(sched, (t, o)));
    let mut skip = false;
    if blocking < all_sessions.len() {
        match extract_series_info(all_sessions[blocking].title.as_str()) {
            Some(binfo) => {
                skip = is_series_consolidated(binfo.0.as_str(), schedule, all_sessions);
            },
            None => {},
        }
    }
    assert(skip == in_consolidated_series(ms, sched, blocking));
    if !skip {
        apply_swap(schedule, (t, r), (t, o));
        proof {
            lemma_swap_in_row(sched, t, r, o);
        }
    }
}

/// Takes the steps for the entry at `(t, r)` against every room of slot
/// `row`.
fn row_pass_exec(schedule: &mut Vec<Vec<usize>>, all_sessions: &[Minisymposium], t: usize, r: usize, row: usize)
    requires
        valid_pos(slots(old(schedule)@), (t, r)),
        row < old(schedule)@.len(),
    ensures
        slots(final(schedule)@) == row_pass(
            all_sessions@,
            slots(old(schedule)@),
            t,
            r,
            row,
            slots(old(schedule)@)[row as int].len(),
        ),
        rearranged(slots(old(schedule)@), slots(final(schedule)@)),
        rows_permuted(slots(old(schedule)@), slots(final(schedule)@)),
{
    let ghost start = slots(schedule@);
    let ghost ms = all_sessions@;
    proof {
        lemma_rearranged_refl(start);
    }
    let n = schedule[row].len();
    let mut o: usize = 0;
    while o < n
        invariant
            ms == all_sessions@,
            valid_pos(start, (t, r)),
            row < start.len(),
            n == start[row as int].len(),
            o <= n,
            slots(schedule@) == row_pass(ms, start, t, r, row, o as nat),
            rearranged(start, slots(schedule@)),
            rows_permuted(start, slots(schedule@)),
        decreases n - o,
    {
        let ghost before = slots(schedule@);
        consolidation_step_exec(schedule, all_sessions, t, r, row, o);
        proof {
            lemma_rearranged_trans(start, before, slots(schedule@));
            lemma_rows_permuted_trans(start, before, slots(schedule@));
        }
        o = o + 1;
    }
}

/// Moves parts of series next to the room of their series. Slot by slot and
/// room by room, a part with another part of the same series in another room
/// of the slot just before (then just after) is exchanged with what its own
/// slot holds in that room, unless that is a part of a series already in one
/// room. Each exchange is decided on the schedule as the exchanges before it
/// left it; every slot keeps what it holds, in another order, and a series
/// whose parts are all in one room stays so.
pub fn consolidate_series_rooms(schedule: &mut Vec<Vec<usize>>, all_sessions: &[Minisymposium])
    ensures
        slots(final(schedule)@) == consolidated(all_sessions@, slots(old(schedule)@), slots(old(schedule)@).len()),
        rearranged(slots(old(schedule)@), slots(final(schedule)@)),
        rows_permuted(slots(old(schedule)@), slots(final(schedule)@)),
        forall|c: Seq<char>|
            #[trigger] series_in_one_room(all_sessions@, slots(old(schedule)@), c) ==> series_in_one_room(
                all_sessions@,
                slots(final(schedule)@),
                c,
            ),
{
    let ghost start = slots(schedule@);
    let ghost ms = all_sessions@;
    proof {
        lemma_rearranged_refl(start);
    }
    let n_slots = schedule.len();
    let mut t: usize = 0;
    while t < n_slots
        invariant
            ms == all_sessions@,
            n_slots == start.len(),
            t <= start.len(),
            schedule@.len() == start.len(),
            slots(schedule@) == consolidated(ms, start, t as nat),
            rearranged(start, slots(schedule@)),
            rows_permuted(start, slots(schedule@)),
        decreases start.len() - t,
    {
        let ghost base = slots(schedule@);
        let n = schedule[t].len();
        let mut r: usize = 0;
        while r < n
            invariant
                ms == all_sessions@,
                t < start.len(),
                base == consolidated(ms, start, t as nat),
                rearranged(start, base),
                n == base[t as int].len(),
                r <= n,
                n_slots == start.len(),
                schedule@.len() == start.len(),
                slots(schedule@) == slot_pass(ms, base, t, r as nat),
                rearranged(start, slots(schedule@)),
                rows_permuted(start, slots(schedule@)),
            decreases n - r,
        {
            let ghost s0 = slots(schedule@);
            assert(start[t as int].len() == base[t as int].len());
            assert(start[t as int].len() == s0[t as int].len());
            if t > 0 {
                row_pass_exec(schedule, all_sessions, t, r, t - 1);
            }
            let ghost s1 = slots(schedule@);
            proof {
                lemma_rearranged_trans(start, s0, s1);
                lemma_rows_permuted_trans(start, s0, s1);
            }
            assert(start[t as int].len() == s1[t as int].len());
            if t + 1 < n_slots {
                row_pass_exec(schedule, all_sessions, t, r, t + 1);
            }
            proof {
                lemma_rearranged_trans(start, s1, slots(schedule@));
                lemma_rows_permuted_trans(start, s1, slots(schedule@));
            }
            r = r + 1;
        }
        t = t + 1;
    }
    proof {
        assert forall|c: Seq<char>| #[trigger] series_in_one_room(ms, start, c) implies series_in_one_room(
            ms,
            slots(schedule@),
            c,
        ) by {
            law_consolidation_keeps_series_in_one_room(ms, start, c, start.len());
        }
    }
}

} // verus!
