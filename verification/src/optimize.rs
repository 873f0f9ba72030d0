//! The per-conflict-type optimisers and the hierarchical engine that runs
//! them in rank order, each level protecting the counts reached before it.
use vstd::prelude::*;
use rand::Rng;
use crate::counts::{
    calculate_conflicts, calculate_selective_conflicts, conflicts_of, counts_fit, total_entries,
    violates_protected_constraints, violates_protection, breaks_protection,
};
use crate::model::{
    ConflictCounts, ConflictType, Minisymposium, SchedulerConfig, Solution, count_of, fitness_of, rank_of, slots,
};
use crate::series::{
    chronology_broken, entry_base, find_series_room_swap, first_room_swap, first_series_fix, has_chronology_violation,
    lemma_placed_shape, lemma_series_parts_in_place, placed, placement_before, series_fix, series_parts,
    try_series_placement,
};
use crate::counts::flat;
use crate::moves::{
    clashes_with_slot, find_all_conflicting_positions, has_partner, lemma_partner_positions_valid,
    lemma_slots_well_sized, partner_positions, slot_has_clash,
    apply_swap, at, lemma_rearranged_entries, lemma_rearranged_refl, lemma_rearranged_trans,
    lemma_swap_rearranges, rearranged, same_shape, swap_at, valid_pos,
};

verus! {

// ===========================================================================
// Random numbers
// ===========================================================================

/// The thread-local random number generator of `rand`.
#[verifier::external_type_specification]
#[verifier::external_body]
pub struct ExThreadRng(rand::rngs::ThreadRng);

/// Calls `rand::thread_rng`, the handle to the thread's generator.
#[verifier::external_body]
fn new_rng() -> rand::rngs::ThreadRng {
    rand::thread_rng()
}

/// Calls `Rng::gen_range(0..n)`: a number below `n`, drawn at random (the
/// range must not be empty, or `gen_range` panics). Which number comes back
/// is left open.
#[verifier::external_body]
fn gen_below(rng: &mut rand::rngs::ThreadRng, n: usize) -> (r: usize)
    requires
        n > 0,
    ensures
        r < n,
{
    rng.gen_range(0..n)
}

/// A number below `n` other than `a`, each equally likely.
fn gen_below_except(rng: &mut rand::rngs::ThreadRng, n: usize, a: usize) -> (r: usize)
    requires
        a < n,
        n >= 2,
    ensures
        r < n,
        r != a,
{
    let k = gen_below(rng, n - 1);
    if k >= a {
        k + 1
    } else {
        k
    }
}

// ===========================================================================
// Copying schedules
// ===========================================================================

/// A copy of a slot.
pub fn copy_slot(slot: &Vec<usize>) -> (r: Vec<usize>)
    ensures
        r@ == slot@,
{
    let mut r: Vec<usize> = Vec::new();
    let mut i: usize = 0;
    while i < slot.len()
        invariant
            i <= slot@.len(),
            r@ == slot@.take(i as int),
        decreases slot.len() - i,
    {
        r.push(slot[i]);
        i = i + 1;
        assert(r@ =~= slot@.take(i as int));
    }
    assert(slot@.take(slot@.len() as int) =~= slot@);
    r
}

/// A copy of a schedule.
pub fn copy_schedule(schedule: &Vec<Vec<usize>>) -> (r: Vec<Vec<usize>>)
    ensures
        slots(r@) == slots(schedule@),
{
    let mut r: Vec<Vec<usize>> = Vec::new();
    let mut i: usize = 0;
    while i < schedule.len()
        invariant
            i <= schedule@.len(),
            r@.len() == i,
            slots(r@) == slots(schedule@).take(i as int),
        decreases schedule.len() - i,
    {
        let s = copy_slot(&schedule[i]);
        let ghost prev = r@;
        r.push(s);
        proof {
            assert(r@ == prev.push(s));
            assert forall|j: int| 0 <= j < i + 1 implies #[trigger] slots(r@)[j] == slots(schedule@)[j] by {
                if j < i {
                    assert(slots(prev)[j] == slots(schedule@).take(i as int)[j]);
                    assert(r@[j] == prev[j]);
                } else {
                    assert(r@[j] == s);
                }
            }
        }
        i = i + 1;
        assert(slots(r@) =~= slots(schedule@).take(i as int));
    }
    assert(slots(schedule@).take(slots(schedule@).len() as int) =~= slots(schedule@));
    r
}

// ===========================================================================
// Random moves
// ===========================================================================

/// Two positions in two different slots, drawn at random: `None` when the
/// schedule has fewer than two slots or when a drawn slot is empty.
pub fn pick_random_swap(schedule: &Vec<Vec<usize>>) -> (r: Option<((usize, usize), (usize, usize))>)
    ensures
        match r {
            Some((p1, p2)) => valid_pos(slots(schedule@), p1) && valid_pos(slots(schedule@), p2)
                && p1.0 != p2.0,
            None => schedule@.len() < 2 || exists|s: int|
                0 <= s < schedule@.len() && #[trigger] schedule@[s]@.len() == 0,
        },
{
    if schedule.len() < 2 {
        return None;
    }
    let mut rng = new_rng();
    let session1 = gen_below(&mut rng, schedule.len());
    let session2 = gen_below_except(&mut rng, schedule.len(), session1);
    if schedule[session1].len() == 0 || schedule[session2].len() == 0 {
        return None;
    }
    let room1 = gen_below(&mut rng, schedule[session1].len());
    let room2 = gen_below(&mut rng, schedule[session2].len());
    Some(((session1, room1), (session2, room2)))
}

/// The positions of a schedule, slot by slot and room by room.
pub open spec fn positions_upto(sched: Seq<Seq<usize>>, end: nat) -> Seq<(usize, usize)>
    decreases end,
{
    if end == 0 {
        Seq::empty()
    } else {
        positions_upto(sched, (end - 1) as nat) + Seq::new(
            sched[end - 1].len(),
            |r: int| ((end - 1) as usize, r as usize),
        )
    }
}

/// Three distinct positions of the schedule, drawn at random; `None` when
/// the schedule has fewer than three entries.
pub fn pick_random_3way_swap(schedule: &Vec<Vec<usize>>) -> (r: Option<
    ((usize, usize), (usize, usize), (usize, usize)),
>)
    ensures
        match r {
            Some((a, b, c)) => valid_pos(slots(schedule@), a) && valid_pos(slots(schedule@), b)
                && valid_pos(slots(schedule@), c) && a != b && b != c && a != c,
            None => positions_upto(slots(schedule@), schedule@.len() as nat).len() < 3,
        },
{
    let ghost sched = slots(schedule@);
    let mut positions: Vec<(usize, usize)> = Vec::new();
    let mut s: usize = 0;
    while s < schedule.len()
        invariant
            s <= schedule@.len(),
            sched == slots(schedule@),
            positions@ == positions_upto(sched, s as nat),
            forall|k: int| 0 <= k < positions@.len() ==> valid_pos(sched, #[trigger] positions@[k]),
            forall|k: int, l: int| 0 <= k < l < positions@.len() ==> positions@[k] != positions@[l]
                && (positions@[k].0 < positions@[l].0 || (positions@[k].0 == positions@[l].0
                && positions@[k].1 < positions@[l].1)),
            forall|k: int| 0 <= k < positions@.len() ==> (#[trigger] positions@[k]).0 < s,
        decreases schedule.len() - s,
    {
        let ghost before = positions@;
        let mut room: usize = 0;
        while room < schedule[s].len()
            invariant
                s < schedule@.len(),
                room <= sched[s as int].len(),
                sched == slots(schedule@),
                positions@ == before + Seq::new(room as nat, |r: int| (s, r as usize)),
                forall|k: int| 0 <= k < before.len() ==> valid_pos(sched, #[trigger] before[k]),
                forall|k: int| 0 <= k < before.len() ==> (#[trigger] before[k]).0 < s,
                forall|k: int, l: int| 0 <= k < l < before.len() ==> before[k] != before[l]
                    && (before[k].0 < before[l].0 || (before[k].0 == before[l].0 && before[k].1
                    < before[l].1)),
                forall|k: int| 0 <= k < positions@.len() ==> valid_pos(sched, #[trigger] positions@[k]),
                forall|k: int, l: int| 0 <= k < l < positions@.len() ==> positions@[k] != positions@[l]
                    && (positions@[k].0 < positions@[l].0 || (positions@[k].0 == positions@[l].0
                    && positions@[k].1 < positions@[l].1)),
                forall|k: int| 0 <= k < positions@.len() ==> (#[trigger] positions@[k]).0 <= s,
            decreases sched[s as int].len() - room,
        {
            positions.push((s, room));
            room = room + 1;
            assert(positions@ =~= before + Seq::new(room as nat, |r: int| (s, r as usize)));
        }
        s = s + 1;
        assert(positions@ =~= positions_upto(sched, s as nat));
    }
    if positions.len() < 3 {
        return None;
    }
    let mut rng = new_rng();
    let n = positions.len();
    let idx_a = gen_below(&mut rng, n);
    let idx_b = gen_below_except(&mut rng, n, idx_a);
    let k = gen_below(&mut rng, n - 2);
    let lo = if idx_a < idx_b { idx_a } else { idx_b };
    let hi = if idx_a < idx_b { idx_b } else { idx_a };
    let k1 = if k >= lo { k + 1 } else { k };
    let idx_c = if k1 >= hi { k1 + 1 } else { k1 };
    Some((positions[idx_a], positions[idx_b], positions[idx_c]))
}

// ===========================================================================
// Protected conflict types
// ===========================================================================

/// A protected count `count` is acceptable against the recorded `old` count:
/// no higher in strict mode, at most 2 higher in flexible mode.
pub open spec fn within_protection(count: int, old: i32, strict: bool) -> bool {
    if strict {
        count <= old
    } else {
        count <= old + 2
    }
}

/// Every protected conflict type keeps an acceptable count in `sched`.
pub open spec fn keeps_protection(
    ms: Seq<Minisymposium>,
    sched: Seq<Seq<usize>>,
    old: ConflictCounts,
    protected: Seq<ConflictType>,
    strict: bool,
) -> bool {
    forall|i: int|
        0 <= i < protected.len() ==> within_protection(
            conflicts_of(#[trigger] protected[i], ms, sched) as int,
            count_of(old, protected[i]),
            strict,
        )
}

/// Rearrangements keep the bound on counts.
pub proof fn lemma_counts_fit_same_shape(a: Seq<Seq<usize>>, b: Seq<Seq<usize>>)
    requires
        same_shape(a, b),
        counts_fit(a),
    ensures
        counts_fit(b),
{
    lemma_rearranged_entries(a, b);
}

/// Whether the candidate `test` keeps every protected count acceptable.
pub fn protection_kept(
    kind: ConflictType,
    test: &Vec<Vec<usize>>,
    all_sessions: &[Minisymposium],
    old: &ConflictCounts,
    protected_types: &[ConflictType],
    strict: bool,
) -> (r: bool)
    requires
        counts_fit(slots(test@)),
    ensures
        r == keeps_protection(all_sessions@, slots(test@), *old, protected_types@, strict),
{
    let sel = calculate_selective_conflicts(test, all_sessions, kind, protected_types);
    let v = violates_protected_constraints(&sel, old, protected_types, strict);
    proof {
        assert forall|i: int| 0 <= i < protected_types@.len() implies (breaks_protection(
            count_of(sel, #[trigger] protected_types@[i]),
            count_of(*old, protected_types@[i]),
            strict,
        ) <==> !within_protection(
            conflicts_of(protected_types@[i], all_sessions@, slots(test@)) as int,
            count_of(*old, protected_types@[i]),
            strict,
        )) by {
            assert(protected_types@.contains(protected_types@[i]));
        }
        if v {
            let i = choose|i: int|
                0 <= i < protected_types@.len() && breaks_protection(
                    count_of(sel, #[trigger] protected_types@[i]),
                    count_of(*old, protected_types@[i]),
                    strict,
                );
            assert(!within_protection(
                conflicts_of(protected_types@[i], all_sessions@, slots(test@)) as int,
                count_of(*old, protected_types@[i]),
                strict,
            ));
        } else {
            assert forall|i: int| 0 <= i < protected_types@.len() implies within_protection(
                conflicts_of(#[trigger] protected_types@[i], all_sessions@, slots(test@)) as int,
                count_of(*old, protected_types@[i]),
                strict,
            ) by {
                if !within_protection(
                    conflicts_of(protected_types@[i], all_sessions@, slots(test@)) as int,
                    count_of(*old, protected_types@[i]),
                    strict,
                ) {
                    assert(breaks_protection(
                        count_of(sel, protected_types@[i]),
                        count_of(*old, protected_types@[i]),
                        strict,
                    ));
                }
            }
        }
    }
    !v
}

// ===========================================================================
// Searches
// ===========================================================================

/// What every search of one level guarantees about the schedule `after` that
/// it returns for the schedule `before`: a rearrangement with no more
/// conflicts of type `kind`, which is `before` itself or keeps every
/// protected count acceptable.
pub open spec fn search_outcome(
    kind: ConflictType,
    ms: Seq<Minisymposium>,
    before: Seq<Seq<usize>>,
    after: Seq<Seq<usize>>,
    old: ConflictCounts,
    protected: Seq<ConflictType>,
    strict: bool,
) -> bool {
    &&& rearranged(before, after)
    &&& conflicts_of(kind, ms, after) <= conflicts_of(kind, ms, before)
    &&& (after == before || keeps_protection(ms, after, old, protected, strict))
}

/// The schedule after one random step on `sched` with the drawn exchange
/// `drawn`: the exchange is made when it names two positions of the
/// schedule, keeps every protected count acceptable and lowers the count of
/// `kind`; otherwise the schedule stays as it is.
pub open spec fn swap_step_result(
    kind: ConflictType,
    ms: Seq<Minisymposium>,
    sched: Seq<Seq<usize>>,
    drawn: Option<((usize, usize), (usize, usize))>,
    old: ConflictCounts,
    protected: Seq<ConflictType>,
    strict: bool,
) -> Seq<Seq<usize>> {
    match drawn {
        Some((p1, p2)) => if valid_pos(sched, p1) && valid_pos(sched, p2) && keeps_protection(
            ms,
            swap_at(sched, p1, p2),
            old,
            protected,
            strict,
        ) && conflicts_of(kind, ms, swap_at(sched, p1, p2)) < conflicts_of(kind, ms, sched) {
            swap_at(sched, p1, p2)
        } else {
            sched
        },
        None => sched,
    }
}

/// One step of the random search: tries the drawn exchange on `best` (see
/// `swap_step_result`).
pub fn random_swap_step(
    kind: ConflictType,
    best: &Vec<Vec<usize>>,
    drawn: Option<((usize, usize), (usize, usize))>,
    all_sessions: &[Minisymposium],
    old: &ConflictCounts,
    protected_types: &[ConflictType],
    strict: bool,
) -> (r: Vec<Vec<usize>>)
    requires
        counts_fit(slots(best@)),
    ensures
        slots(r@) == swap_step_result(kind, all_sessions@, slots(best@), drawn, *old, protected_types@, strict),
        rearranged(slots(best@), slots(r@)),
{
    let ghost b = slots(best@);
    let mut test = copy_schedule(best);
    proof {
        lemma_rearranged_refl(b);
    }
    if let Some((s1, s2)) = drawn {
        apply_swap(&mut test, s1, s2);
        proof {
            lemma_counts_fit_same_shape(b, slots(test@));
        }
        if valid_pos_exec(best, s1) && valid_pos_exec(best, s2) {
            if protection_kept(kind, &test, all_sessions, old, protected_types, strict) {
                let test_conflicts = calculate_conflicts(kind, &test, all_sessions);
                let best_conflicts = calculate_conflicts(kind, best, all_sessions);
                if test_conflicts < best_conflicts {
                    return test;
                }
            }
        }
    }
    copy_schedule(best)
}

fn valid_pos_exec(schedule: &Vec<Vec<usize>>, p: (usize, usize)) -> (r: bool)
    ensures
        r == valid_pos(slots(schedule@), p),
{
    p.0 < schedule.len() && p.1 < schedule[p.0].len()
}

/// Up to `max_iterations` random swaps between two slots, each kept when it
/// keeps the protected counts and lowers the count of `kind` (see
/// `random_swap_step`); a schedule without conflicts of `kind` is returned
/// as it is.
pub fn random_swap_search(
    kind: ConflictType,
    max_iterations: usize,
    schedule: &Vec<Vec<usize>>,
    all_sessions: &[Minisymposium],
    old: &ConflictCounts,
    protected_types: &[ConflictType],
    strict: bool,
) -> (r: Vec<Vec<usize>>)
    requires
        counts_fit(slots(schedule@)),
    ensures
        search_outcome(kind, all_sessions@, slots(schedule@), slots(r@), *old, protected_types@, strict),
        conflicts_of(kind, all_sessions@, slots(schedule@)) == 0 ==> slots(r@) == slots(schedule@),
        slots(r@) != slots(schedule@) ==> conflicts_of(kind, all_sessions@, slots(r@)) < conflicts_of(
            kind,
            all_sessions@,
            slots(schedule@),
        ),
{
    let ghost start = slots(schedule@);
    let mut best = copy_schedule(schedule);
    let mut best_conflicts = calculate_conflicts(kind, &best, all_sessions);
    proof {
        lemma_rearranged_refl(start);
    }
    let mut iteration: usize = 0;
    while iteration < max_iterations
        invariant
            start == slots(schedule@),
            counts_fit(start),
            counts_fit(slots(best@)),
            best_conflicts as nat == conflicts_of(kind, all_sessions@, slots(best@)),
            search_outcome(kind, all_sessions@, start, slots(best@), *old, protected_types@, strict),
            conflicts_of(kind, all_sessions@, start) == 0 ==> slots(best@) == start,
            slots(best@) != start ==> conflicts_of(kind, all_sessions@, slots(best@)) < conflicts_of(
                kind,
                all_sessions@,
                start,
            ),
        decreases max_iterations - iteration,
    {
        iteration = iteration + 1;
        if best_conflicts == 0 {
            break;
        }
        let drawn = pick_random_swap(&best);
        let ghost before = slots(best@);
        let next = random_swap_step(kind, &best, drawn, all_sessions, old, protected_types, strict);
        proof {
            lemma_rearranged_trans(start, before, slots(next@));
            lemma_counts_fit_same_shape(before, slots(next@));
        }
        best = next;
        best_conflicts = calculate_conflicts(kind, &best, all_sessions);
    }
    best
}

// ===========================================================================
// Targeted search
// ===========================================================================

/// The positions whose entry conflicts by `kind` with another entry of its
/// slot, slot by slot and room by room.
pub open spec fn conflict_list(kind: ConflictType, ms: Seq<Minisymposium>, sched: Seq<Seq<usize>>) -> Seq<
    (usize, usize),
> {
    partner_positions(kind, ms, sched, flat(sched).len())
}

/// Move `(k, sb, rb)` exchanges the entry at the `k`-th position in conflict
/// with the entry in room `rb` of another slot `sb`; with `safe_only`, slot
/// `sb` must hold nothing that conflicts by `kind` with the moving entry.
pub open spec fn move_candidate(
    kind: ConflictType,
    safe_only: bool,
    ms: Seq<Minisymposium>,
    sched: Seq<Seq<usize>>,
    k: int,
    sb: int,
    rb: int,
) -> bool {
    let list = conflict_list(kind, ms, sched);
    &&& 0 <= k < list.len()
    &&& 0 <= sb < sched.len()
    &&& sb != list[k].0
    &&& 0 <= rb < sched[sb].len()
    &&& (safe_only ==> !slot_has_clash(kind, ms, sched, at(sched, list[k]), sb))
}

/// The schedule after move `(k, sb, rb)`.
pub open spec fn after_move(
    kind: ConflictType,
    ms: Seq<Minisymposium>,
    sched: Seq<Seq<usize>>,
    k: int,
    sb: int,
    rb: int,
) -> Seq<Seq<usize>> {
    swap_at(sched, conflict_list(kind, ms, sched)[k], (sb as usize, rb as usize))
}

/// Move `(k, sb, rb)` is tried and accepted: it keeps the protected counts
/// acceptable and lowers the count of `kind`.
pub open spec fn good_move(
    kind: ConflictType,
    safe_only: bool,
    ms: Seq<Minisymposium>,
    sched: Seq<Seq<usize>>,
    old: ConflictCounts,
    protected: Seq<ConflictType>,
    strict: bool,
    k: int,
    sb: int,
    rb: int,
) -> bool {
    &&& move_candidate(kind, safe_only, ms, sched, k, sb, rb)
    &&& keeps_protection(ms, after_move(kind, ms, sched, k, sb, rb), old, protected, strict)
    &&& conflicts_of(kind, ms, after_move(kind, ms, sched, k, sb, rb)) < conflicts_of(kind, ms, sched)
}

/// Moves are tried by position in conflict, then target slot, then room.
pub open spec fn tried_before(k1: int, s1: int, r1: int, k2: int, s2: int, r2: int) -> bool {
    k1 < k2 || (k1 == k2 && (s1 < s2 || (s1 == s2 && r1 < r2)))
}

/// `(k, sb, rb)` is the first accepted move.
pub open spec fn first_good_move(
    kind: ConflictType,
    safe_only: bool,
    ms: Seq<Minisymposium>,
    sched: Seq<Seq<usize>>,
    old: ConflictCounts,
    protected: Seq<ConflictType>,
    strict: bool,
    k: int,
    sb: int,
    rb: int,
) -> bool {
    &&& good_move(kind, safe_only, ms, sched, old, protected, strict, k, sb, rb)
    &&& forall|k2: int, s2: int, r2: int|
        tried_before(k2, s2, r2, k, sb, rb) ==> !#[trigger] good_move(
            kind,
            safe_only,
            ms,
            sched,
            old,
            protected,
            strict,
            k2,
            s2,
            r2,
        )
}

/// The move that the targeted search makes next, if any.
pub open spec fn next_move(
    kind: ConflictType,
    safe_only: bool,
    ms: Seq<Minisymposium>,
    sched: Seq<Seq<usize>>,
    old: ConflictCounts,
    protected: Seq<ConflictType>,
    strict: bool,
) -> Option<(int, int, int)> {
    if exists|k: int, sb: int, rb: int|
        #[trigger] first_good_move(kind, safe_only, ms, sched, old, protected, strict, k, sb, rb) {
        Some(
            choose|k: int, sb: int, rb: int|
                #[trigger] first_good_move(kind, safe_only, ms, sched, old, protected, strict, k, sb, rb),
        )
    } else {
        None
    }
}

/// The schedule that the targeted search reaches with `fuel` rounds left:
/// it stops at zero conflicts or when no move is accepted, and otherwise
/// makes the first accepted move.
pub open spec fn greedy_result(
    kind: ConflictType,
    safe_only: bool,
    ms: Seq<Minisymposium>,
    sched: Seq<Seq<usize>>,
    old: ConflictCounts,
    protected: Seq<ConflictType>,
    strict: bool,
    fuel: nat,
) -> Seq<Seq<usize>>
    decreases fuel,
{
    if fuel == 0 || conflicts_of(kind, ms, sched) == 0 {
        sched
    } else {
        match next_move(kind, safe_only, ms, sched, old, protected, strict) {
            None => sched,
            Some(m) => greedy_result(
                kind,
                safe_only,
                ms,
                after_move(kind, ms, sched, m.0, m.1, m.2),
                old,
                protected,
                strict,
                (fuel - 1) as nat,
            ),
        }
    }
}

/// Two first accepted moves are the same move.
proof fn lemma_first_good_move_unique(
    kind: ConflictType,
    safe_only: bool,
    ms: Seq<Minisymposium>,
    sched: Seq<Seq<usize>>,
    old: ConflictCounts,
    protected: Seq<ConflictType>,
    strict: bool,
    m1: (int, int, int),
    m2: (int, int, int),
)
    requires
        first_good_move(kind, safe_only, ms, sched, old, protected, strict, m1.0, m1.1, m1.2),
        first_good_move(kind, safe_only, ms, sched, old, protected, strict, m2.0, m2.1, m2.2),
    ensures
        m1 == m2,
{
    if tried_before(m1.0, m1.1, m1.2, m2.0, m2.1, m2.2) {
        assert(!good_move(kind, safe_only, ms, sched, old, protected, strict, m1.0, m1.1, m1.2));
    }
    if tried_before(m2.0, m2.1, m2.2, m1.0, m1.1, m1.2) {
        assert(!good_move(kind, safe_only, ms, sched, old, protected, strict, m2.0, m2.1, m2.2));
    }
}

/// The first accepted move, in the order positions in conflict, target
/// slot, room.
pub fn find_first_move(
    kind: ConflictType,
    safe_only: bool,
    schedule: &Vec<Vec<usize>>,
    all_sessions: &[Minisymposium],
    old: &ConflictCounts,
    protected_types: &[ConflictType],
    strict: bool,
) -> (r: Option<(usize, usize, usize)>)
    requires
        counts_fit(slots(schedule@)),
    ensures
        match r {
            Some(m) => next_move(kind, safe_only, all_sessions@, slots(schedule@), *old, protected_types@, strict)
                == Some((m.0 as int, m.1 as int, m.2 as int)),
            None => next_move(kind, safe_only, all_sessions@, slots(schedule@), *old, protected_types@, strict)
                is None,
        },
{
    let ghost sched = slots(schedule@);
    let ghost ms = all_sessions@;
    let ghost pr = protected_types@;
    let current = calculate_conflicts(kind, schedule, all_sessions);
    let list = find_all_conflicting_positions(kind, schedule, all_sessions);
    proof {
        lemma_slots_well_sized(*schedule);
        crate::counts::lemma_flat_len(sched, sched.len());
        lemma_partner_positions_valid(kind, ms, sched, flat(sched).len());
    }
    let mut k: usize = 0;
    while k < list.len()
        invariant
            sched == slots(schedule@),
            ms == all_sessions@,
            pr == protected_types@,
            counts_fit(sched),
            current >= 0,
            current as nat == conflicts_of(kind, ms, sched),
            list@ == conflict_list(kind, ms, sched),
            forall|j: int| 0 <= j < list@.len() ==> valid_pos(sched, #[trigger] list@[j]),
            k <= list@.len(),
            forall|k2: int, s2: int, r2: int|
                k2 < k ==> !#[trigger] good_move(kind, safe_only, ms, sched, *old, pr, strict, k2, s2, r2),
        decreases list.len() - k,
    {
        let (slot_a, room_a) = list[k];
        assert(valid_pos(sched, list@[k as int]));
        let ms_a = schedule[slot_a][room_a];
        let mut slot_b: usize = 0;
        while slot_b < schedule.len()
            invariant
                sched == slots(schedule@),
                ms == all_sessions@,
                pr == protected_types@,
                counts_fit(sched),
                current >= 0,
                current as nat == conflicts_of(kind, ms, sched),
                list@ == conflict_list(kind, ms, sched),
                k < list@.len(),
                list@[k as int] == (slot_a, room_a),
                valid_pos(sched, (slot_a, room_a)),
                ms_a == at(sched, (slot_a, room_a)),
                slot_b <= sched.len(),
                forall|k2: int, s2: int, r2: int|
                    tried_before(k2, s2, r2, k as int, slot_b as int, 0) ==> !#[trigger] good_move(
                        kind,
                        safe_only,
                        ms,
                        sched,
                        *old,
                        pr,
                        strict,
                        k2,
                        s2,
                        r2,
                    ),
            decreases schedule.len() - slot_b,
        {
            let skip = slot_b == slot_a || (safe_only && clashes_with_slot(
                kind,
                ms_a,
                &schedule[slot_b],
                all_sessions,
            ));
            proof {
                assert(sched[slot_b as int] == schedule@[slot_b as int]@);
            }
            if !skip {
                let mut room_b: usize = 0;
                while room_b < schedule[slot_b].len()
                    invariant
                        sched == slots(schedule@),
                        ms == all_sessions@,
                        pr == protected_types@,
                        counts_fit(sched),
                        current >= 0,
                        current as nat == conflicts_of(kind, ms, sched),
                        list@ == conflict_list(kind, ms, sched),
                        k < list@.len(),
                        list@[k as int] == (slot_a, room_a),
                        valid_pos(sched, (slot_a, room_a)),
                        ms_a == at(sched, (slot_a, room_a)),
                        slot_b < sched.len(),
                        slot_b != slot_a,
                        safe_only ==> !slot_has_clash(kind, ms, sched, ms_a, slot_b as int),
                        room_b <= sched[slot_b as int].len(),
                        forall|k2: int, s2: int, r2: int|
                            tried_before(k2, s2, r2, k as int, slot_b as int, room_b as int)
                                ==> !#[trigger] good_move(kind, safe_only, ms, sched, *old, pr, strict, k2, s2, r2),
                    decreases schedule@[slot_b as int]@.len() - room_b,
                {
                    let ms_b = schedule[slot_b][room_b];
                    let mut test = copy_schedule(schedule);
                    test[slot_a][room_a] = ms_b;
                    test[slot_b][room_b] = ms_a;
                    proof {
                        assert(slots(test@) =~= after_move(kind, ms, sched, k as int, slot_b as int, room_b as int));
                        lemma_swap_rearranges(sched, (slot_a, room_a), (slot_b, room_b));
                        lemma_counts_fit_same_shape(sched, slots(test@));
                        assert(move_candidate(kind, safe_only, ms, sched, k as int, slot_b as int, room_b as int));
                    }
                    if protection_kept(kind, &test, all_sessions, old, protected_types, strict) {
                        let test_conflicts = calculate_conflicts(kind, &test, all_sessions);
                        if test_conflicts < current {
                            proof {
                                assert(good_move(kind, safe_only, ms, sched, *old, pr, strict, k as int, slot_b as int, room_b as int));
                                assert(first_good_move(kind, safe_only, ms, sched, *old, pr, strict, k as int, slot_b as int, room_b as int));
                                let m = choose|k1: int, s1: int, r1: int|
                                    #[trigger] first_good_move(kind, safe_only, ms, sched, *old, pr, strict, k1, s1, r1);
                                lemma_first_good_move_unique(kind, safe_only, ms, sched, *old, pr, strict, m, (k as int, slot_b as int, room_b as int));
                            }
                            return Some((k, slot_b, room_b));
                        }
                        assert(!good_move(kind, safe_only, ms, sched, *old, pr, strict, k as int, slot_b as int, room_b as int));
                    } else {
                        assert(!good_move(kind, safe_only, ms, sched, *old, pr, strict, k as int, slot_b as int, room_b as int));
                    }
                    room_b = room_b + 1;
                }
            }
            proof {
                assert forall|k2: int, s2: int, r2: int|
                    tried_before(k2, s2, r2, k as int, slot_b + 1, 0) implies !#[trigger] good_move(
                        kind, safe_only, ms, sched, *old, pr, strict, k2, s2, r2,
                    ) by {
                    if k2 == k && s2 == slot_b {
                        if !skip {
                            if r2 >= sched[slot_b as int].len() {
                                assert(!move_candidate(kind, safe_only, ms, sched, k2, s2, r2));
                            } else {
                                assert(tried_before(k2, s2, r2, k as int, slot_b as int, sched[slot_b as int].len() as int));
                            }
                        } else {
                            assert(!move_candidate(kind, safe_only, ms, sched, k2, s2, r2));
                        }
                    } else if r2 < 0 {
                        assert(!move_candidate(kind, safe_only, ms, sched, k2, s2, r2));
                    } else {
                        assert(tried_before(k2, s2, r2, k as int, slot_b as int, 0));
                    }
                }
            }
            slot_b = slot_b + 1;
        }
        proof {
            assert forall|k2: int, s2: int, r2: int|
                k2 < k + 1 implies !#[trigger] good_move(kind, safe_only, ms, sched, *old, pr, strict, k2, s2, r2) by {
                if k2 == k {
                    if s2 >= sched.len() || s2 < 0 {
                        assert(!move_candidate(kind, safe_only, ms, sched, k2, s2, r2));
                    } else {
                        assert(tried_before(k2, s2, r2, k as int, sched.len() as int, 0));
                    }
                }
            }
        }
        k = k + 1;
    }
    proof {
        assert forall|k1: int, s1: int, r1: int|
            !#[trigger] first_good_move(kind, safe_only, ms, sched, *old, pr, strict, k1, s1, r1) by {
            if k1 >= list@.len() || k1 < 0 {
                assert(!move_candidate(kind, safe_only, ms, sched, k1, s1, r1));
            }
        }
    }
    None
}

/// Up to `max_iterations` rounds of the targeted search: each round makes
/// the first accepted move (see `next_move`), and the search stops at zero
/// conflicts of type `kind` or when no move is accepted.
pub fn targeted_swap_search(
    kind: ConflictType,
    safe_only: bool,
    max_iterations: usize,
    schedule: &Vec<Vec<usize>>,
    all_sessions: &[Minisymposium],
    old: &ConflictCounts,
    protected_types: &[ConflictType],
    strict: bool,
) -> (r: Vec<Vec<usize>>)
    requires
        counts_fit(slots(schedule@)),
    ensures
        slots(r@) == greedy_result(
            kind,
            safe_only,
            all_sessions@,
            slots(schedule@),
            *old,
            protected_types@,
            strict,
            max_iterations as nat,
        ),
        search_outcome(kind, all_sessions@, slots(schedule@), slots(r@), *old, protected_types@, strict),
{
    let ghost start = slots(schedule@);
    let ghost ms = all_sessions@;
    let ghost pr = protected_types@;
    let mut best = copy_schedule(schedule);
    proof {
        lemma_rearranged_refl(start);
    }
    let mut iteration: usize = 0;
    while iteration < max_iterations
        invariant
            start == slots(schedule@),
            ms == all_sessions@,
            pr == protected_types@,
            iteration <= max_iterations,
            counts_fit(slots(best@)),
            greedy_result(kind, safe_only, ms, start, *old, pr, strict, max_iterations as nat)
                == greedy_result(kind, safe_only, ms, slots(best@), *old, pr, strict, (max_iterations - iteration) as nat),
            search_outcome(kind, ms, start, slots(best@), *old, pr, strict),
        ensures
            greedy_result(kind, safe_only, ms, start, *old, pr, strict, max_iterations as nat) == slots(best@),
            search_outcome(kind, ms, start, slots(best@), *old, pr, strict),
        decreases max_iterations - iteration,
    {
        let current = calculate_conflicts(kind, &best, all_sessions);
        if current == 0 {
            break;
        }
        let found = find_first_move(kind, safe_only, &best, all_sessions, old, protected_types, strict);
        match found {
            None => {
                break;
            },
            Some((k, slot_b, room_b)) => {
                let ghost sched = slots(best@);
                let list = find_all_conflicting_positions(kind, &best, all_sessions);
                proof {
                    lemma_slots_well_sized(best);
                    crate::counts::lemma_flat_len(sched, sched.len());
                    lemma_partner_positions_valid(kind, ms, sched, flat(sched).len());
                    assert(first_good_move(kind, safe_only, ms, sched, *old, pr, strict, k as int, slot_b as int, room_b as int));
                    assert(valid_pos(sched, list@[k as int]));
                }
                let (slot_a, room_a) = list[k];
                let ms_a = best[slot_a][room_a];
                let ms_b = best[slot_b][room_b];
                best[slot_a][room_a] = ms_b;
                best[slot_b][room_b] = ms_a;
                proof {
                    assert(slots(best@) =~= after_move(kind, ms, sched, k as int, slot_b as int, room_b as int));
                    lemma_swap_rearranges(sched, (slot_a, room_a), (slot_b, room_b));
                    lemma_rearranged_trans(start, sched, slots(best@));
                    lemma_counts_fit_same_shape(sched, slots(best@));
                }
            },
        }
        iteration = iteration + 1;
    }
    best
}

// ===========================================================================
// The five levels
// ===========================================================================

/// One round of the series-room search on `sched`: the exchange chosen by
/// `find_series_room_swap` is made when it keeps the series in
/// chronological order, keeps the protected counts acceptable and lowers
/// the count of series spread over several rooms.
pub open spec fn room_round(
    ms: Seq<Minisymposium>,
    sched: Seq<Seq<usize>>,
    old: ConflictCounts,
    protected: Seq<ConflictType>,
    strict: bool,
) -> Seq<Seq<usize>> {
    match first_room_swap(ms, sched) {
        Some(sw) => room_try(ms, sched, sw, old, protected, strict),
        None => sched,
    }
}

/// The schedule after trying the exchange `sw` in a round of the
/// series-room search.
pub open spec fn room_try(
    ms: Seq<Minisymposium>,
    sched: Seq<Seq<usize>>,
    sw: ((usize, usize), (usize, usize)),
    old: ConflictCounts,
    protected: Seq<ConflictType>,
    strict: bool,
) -> Seq<Seq<usize>> {
    let t = swap_at(sched, sw.0, sw.1);
    if !chronology_broken(ms, t) && keeps_protection(ms, t, old, protected, strict) && conflicts_of(
        ConflictType::SeriesSameRoom,
        ms,
        t,
    ) < conflicts_of(ConflictType::SeriesSameRoom, ms, sched) {
        t
    } else {
        sched
    }
}

/// The schedule that the series-room search reaches with `fuel` rounds
/// left: it stops at zero conflicts, and otherwise makes one round.
pub open spec fn room_rounds(
    ms: Seq<Minisymposium>,
    sched: Seq<Seq<usize>>,
    old: ConflictCounts,
    protected: Seq<ConflictType>,
    strict: bool,
    fuel: nat,
) -> Seq<Seq<usize>>
    decreases fuel,
{
    if fuel == 0 || conflicts_of(ConflictType::SeriesSameRoom, ms, sched) == 0 {
        sched
    } else {
        room_rounds(ms, room_round(ms, sched, old, protected, strict), old, protected, strict, (fuel - 1) as nat)
    }
}

/// Up to 30 rounds: exchange the parts chosen by `find_series_room_swap`,
/// kept when the series stay in chronological order, the protected counts
/// stay acceptable and fewer series are spread over several rooms.
pub fn series_room_search(
    schedule: &Vec<Vec<usize>>,
    all_sessions: &[Minisymposium],
    old: &ConflictCounts,
    protected_types: &[ConflictType],
    strict: bool,
) -> (r: Vec<Vec<usize>>)
    requires
        counts_fit(slots(schedule@)),
    ensures
        slots(r@) == room_rounds(all_sessions@, slots(schedule@), *old, protected_types@, strict, 30),
        search_outcome(ConflictType::SeriesSameRoom, all_sessions@, slots(schedule@), slots(r@), *old, protected_types@, strict),
        slots(r@) != slots(schedule@) ==> !chronology_broken(all_sessions@, slots(r@)),
{
    let kind = ConflictType::SeriesSameRoom;
    let ghost start = slots(schedule@);
    let ghost ms = all_sessions@;
    let mut best = copy_schedule(schedule);
    let mut best_conflicts = calculate_conflicts(kind, &best, all_sessions);
    proof {
        lemma_rearranged_refl(start);
    }
    let mut iteration: usize = 0;
    while iteration < 30
        invariant
            kind == ConflictType::SeriesSameRoom,
            start == slots(schedule@),
            ms == all_sessions@,
            iteration <= 30,
            counts_fit(slots(best@)),
            best_conflicts >= 0,
            best_conflicts as nat == conflicts_of(kind, all_sessions@, slots(best@)),
            search_outcome(kind, all_sessions@, start, slots(best@), *old, protected_types@, strict),
            slots(best@) != start ==> !chronology_broken(all_sessions@, slots(best@)),
            room_rounds(ms, start, *old, protected_types@, strict, 30) == room_rounds(
                ms,
                slots(best@),
                *old,
                protected_types@,
                strict,
                (30 - iteration) as nat,
            ),
        ensures
            best_conflicts == 0 || iteration == 30,
            counts_fit(slots(best@)),
            best_conflicts as nat == conflicts_of(kind, all_sessions@, slots(best@)),
            search_outcome(kind, all_sessions@, start, slots(best@), *old, protected_types@, strict),
            slots(best@) != start ==> !chronology_broken(all_sessions@, slots(best@)),
            room_rounds(ms, start, *old, protected_types@, strict, 30) == room_rounds(
                ms,
                slots(best@),
                *old,
                protected_types@,
                strict,
                (30 - iteration) as nat,
            ),
        decreases 30 - iteration,
    {
        if best_conflicts == 0 {
            break;
        }
        iteration = iteration + 1;
        let ghost before = slots(best@);
        let mut test = copy_schedule(&best);
        let found = find_series_room_swap(&test, all_sessions);
        assert(found == first_room_swap(ms, before));
        match found {
            Some((p1, p2)) => {
                apply_swap(&mut test, p1, p2);
                assert(slots(test@) == swap_at(before, p1, p2));
                proof {
                    lemma_counts_fit_same_shape(slots(best@), slots(test@));
                    assert(first_room_swap(ms, before) == Some((p1, p2)));
                    assert(room_round(ms, before, *old, protected_types@, strict) == room_try(ms, before, (p1, p2), *old, protected_types@, strict));
                }
                let ghost t = swap_at(before, p1, p2);
                let broken = has_chronology_violation(&test, all_sessions);
                assert(broken == chronology_broken(ms, t));
                if !broken {
                    let kept = protection_kept(kind, &test, all_sessions, old, protected_types, strict);
                    assert(kept == keeps_protection(ms, t, *old, protected_types@, strict));
                    if kept {
                        let test_conflicts = calculate_conflicts(kind, &test, all_sessions);
                        assert(test_conflicts == conflicts_of(ConflictType::SeriesSameRoom, ms, t));
                        assert(best_conflicts == conflicts_of(ConflictType::SeriesSameRoom, ms, before));
                        if test_conflicts < best_conflicts {
                            proof {
                                lemma_rearranged_trans(start, slots(best@), slots(test@));
                            }
                            best = test;
                            best_conflicts = test_conflicts;
                        }
                    }
                }
                assert(slots(best@) == room_try(ms, before, (p1, p2), *old, protected_types@, strict));
            },
            None => {
                assert(slots(best@) == before);
            },
        }
        assert(slots(best@) == room_round(ms, before, *old, protected_types@, strict));
        assert(room_rounds(ms, before, *old, protected_types@, strict, (30 - iteration + 1) as nat) == room_rounds(
            ms,
            slots(best@),
            *old,
            protected_types@,
            strict,
            (30 - iteration) as nat,
        ));
    }
    assert(room_rounds(ms, slots(best@), *old, protected_types@, strict, (30 - iteration) as nat) == slots(best@));
    best
}

/// No series of `sched` can be moved into consecutive slots of one room by
/// an accepted placement.
pub open spec fn no_series_fix(
    ms: Seq<Minisymposium>,
    sched: Seq<Seq<usize>>,
    old: ConflictCounts,
    protected: Seq<ConflictType>,
    strict: bool,
) -> bool {
    forall|base: Seq<char>, st: int, rm: int| !#[trigger] series_fix(ms, sched, base, st, rm, old, protected, strict)
}

/// Some series of `sched` can be placed (see `first_series_fix`).
pub open spec fn some_series_fix(
    ms: Seq<Minisymposium>,
    sched: Seq<Seq<usize>>,
    old: ConflictCounts,
    protected: Seq<ConflictType>,
    strict: bool,
) -> bool {
    exists|k: int, st: int, rm: int| #[trigger] first_series_fix(ms, sched, k, st, rm, old, protected, strict)
}

/// The schedule after the placement `try_series_placement` makes on
/// `sched`: the first series (in schedule order) that can be placed, at its
/// first accepted placement; `sched` itself when none can.
pub open spec fn series_step(
    ms: Seq<Minisymposium>,
    sched: Seq<Seq<usize>>,
    old: ConflictCounts,
    protected: Seq<ConflictType>,
    strict: bool,
) -> Seq<Seq<usize>> {
    if some_series_fix(ms, sched, old, protected, strict) {
        let (k, st, rm) = choose|k: int, st: int, rm: int| #[trigger] first_series_fix(ms, sched, k, st, rm, old, protected, strict);
        placed(sched, series_parts(ms, sched, entry_base(ms, flat(sched)[k])->0), st, rm)
    } else {
        sched
    }
}

/// Up to `n` placements, one after the other, stopping at zero back-to-back
/// conflicts or when no series can be placed.
pub open spec fn back_rounds(
    ms: Seq<Minisymposium>,
    sched: Seq<Seq<usize>>,
    old: ConflictCounts,
    protected: Seq<ConflictType>,
    strict: bool,
    n: nat,
) -> Seq<Seq<usize>>
    decreases n,
{
    if n == 0 || conflicts_of(ConflictType::SeriesBackToBack, ms, sched) == 0 || !some_series_fix(ms, sched, old, protected, strict) {
        sched
    } else {
        back_rounds(ms, series_step(ms, sched, old, protected, strict), old, protected, strict, (n - 1) as nat)
    }
}

/// The first series that can be placed, and its first placement, are one.
proof fn lemma_first_series_fix_unique(
    ms: Seq<Minisymposium>,
    sched: Seq<Seq<usize>>,
    k1: int,
    s1: int,
    r1: int,
    k2: int,
    s2: int,
    r2: int,
    old: ConflictCounts,
    protected: Seq<ConflictType>,
    strict: bool,
)
    requires
        first_series_fix(ms, sched, k1, s1, r1, old, protected, strict),
        first_series_fix(ms, sched, k2, s2, r2, old, protected, strict),
    ensures
        k1 == k2 && s1 == s2 && r1 == r2,
{
    let fl = flat(sched);
    if k1 < k2 {
        assert(!series_fix(ms, sched, entry_base(ms, fl[k1])->0, s1, r1, old, protected, strict));
    } else if k2 < k1 {
        assert(!series_fix(ms, sched, entry_base(ms, fl[k2])->0, s2, r2, old, protected, strict));
    } else {
        if placement_before(s1, r1, s2, r2) {
            assert(!series_fix(ms, sched, entry_base(ms, fl[k2])->0, s1, r1, old, protected, strict));
        } else if placement_before(s2, r2, s1, r1) {
            assert(!series_fix(ms, sched, entry_base(ms, fl[k1])->0, s2, r2, old, protected, strict));
        }
    }
}

/// Up to 50 rounds of `try_series_placement`, stopping at zero back-to-back
/// conflicts or when no series can be placed (`back_rounds`). Unless it
/// reached zero conflicts or no series placement is left, it made 50
/// placements, each lowering the count.
pub fn series_back_search(
    schedule: &Vec<Vec<usize>>,
    all_sessions: &[Minisymposium],
    old: &ConflictCounts,
    protected_types: &[ConflictType],
    strict: bool,
) -> (r: Vec<Vec<usize>>)
    requires
        counts_fit(slots(schedule@)),
    ensures
        rearranged(slots(schedule@), slots(r@)),
        conflicts_of(ConflictType::SeriesBackToBack, all_sessions@, slots(r@)) <= conflicts_of(
            ConflictType::SeriesBackToBack,
            all_sessions@,
            slots(schedule@),
        ),
        slots(r@) == slots(schedule@) || keeps_protection(all_sessions@, slots(r@), *old, protected_types@, strict),
        conflicts_of(ConflictType::SeriesBackToBack, all_sessions@, slots(r@)) == 0 || no_series_fix(
            all_sessions@,
            slots(r@),
            *old,
            protected_types@,
            strict,
        ) || conflicts_of(ConflictType::SeriesBackToBack, all_sessions@, slots(r@)) + 50 <= conflicts_of(
            ConflictType::SeriesBackToBack,
            all_sessions@,
            slots(schedule@),
        ),
        slots(r@) == back_rounds(all_sessions@, slots(schedule@), *old, protected_types@, strict, 50),
{
    let kind = ConflictType::SeriesBackToBack;
    let ghost start = slots(schedule@);
    let ghost ms = all_sessions@;
    let mut best = copy_schedule(schedule);
    proof {
        lemma_rearranged_refl(start);
    }
    let mut best_conflicts = calculate_conflicts(kind, &best, all_sessions);
    let mut iteration: usize = 0;
    while iteration < 50
        invariant_except_break
            conflicts_of(kind, ms, slots(best@)) + iteration <= conflicts_of(kind, ms, start),
        invariant
            kind == ConflictType::SeriesBackToBack,
            start == slots(schedule@),
            ms == all_sessions@,
            counts_fit(slots(best@)),
            best_conflicts >= 0,
            best_conflicts as nat == conflicts_of(kind, ms, slots(best@)),
            rearranged(start, slots(best@)),
            conflicts_of(kind, ms, slots(best@)) <= conflicts_of(kind, ms, start),
            slots(best@) == start || keeps_protection(ms, slots(best@), *old, protected_types@, strict),
            iteration <= 50,
            back_rounds(ms, start, *old, protected_types@, strict, 50) == back_rounds(
                ms,
                slots(best@),
                *old,
                protected_types@,
                strict,
                (50 - iteration) as nat,
            ),
        ensures
            counts_fit(slots(best@)),
            rearranged(start, slots(best@)),
            conflicts_of(kind, ms, slots(best@)) <= conflicts_of(kind, ms, start),
            slots(best@) == start || keeps_protection(ms, slots(best@), *old, protected_types@, strict),
            conflicts_of(kind, ms, slots(best@)) == 0 || no_series_fix(ms, slots(best@), *old, protected_types@, strict)
                || conflicts_of(kind, ms, slots(best@)) + 50 <= conflicts_of(kind, ms, start),
            slots(best@) == back_rounds(ms, start, *old, protected_types@, strict, 50),
        decreases 50 - iteration,
    {
        if best_conflicts == 0 {
            break;
        }
        iteration = iteration + 1;
        let ghost before = slots(best@);
        proof {
            lemma_slots_well_sized(best);
            crate::counts::lemma_flat_len(before, before.len());
        }
        let improved = try_series_placement(&mut best, all_sessions, old, protected_types, strict);
        if !improved {
            proof {
                if some_series_fix(ms, before, *old, protected_types@, strict) {
                    let (k, st, rm) = choose|k: int, st: int, rm: int|
                        #[trigger] first_series_fix(ms, before, k, st, rm, *old, protected_types@, strict);
                    assert(series_fix(ms, before, entry_base(ms, flat(before)[k])->0, st, rm, *old, protected_types@, strict));
                }
            }
            break;
        }
        proof {
            let (k1, s1, r1) = choose|k: int, st: int, rm: int|
                #[trigger] first_series_fix(ms, before, k, st, rm, *old, protected_types@, strict)
                    && slots(best@) == placed(before, series_parts(ms, before, entry_base(ms, flat(before)[k])->0), st, rm);
            assert(some_series_fix(ms, before, *old, protected_types@, strict));
            let (k2, s2, r2) = choose|k: int, st: int, rm: int|
                #[trigger] first_series_fix(ms, before, k, st, rm, *old, protected_types@, strict);
            lemma_first_series_fix_unique(ms, before, k1, s1, r1, k2, s2, r2, *old, protected_types@, strict);
            assert(slots(best@) == series_step(ms, before, *old, protected_types@, strict));
        }
        proof {
            let (base, st, rm) = choose|base: Seq<char>, st: int, rm: int|
                #[trigger] series_fix(ms, before, base, st, rm, *old, protected_types@, strict)
                    && slots(best@) == crate::series::placed(before, series_parts(ms, before, base), st, rm);
            assert(crate::series::acceptable_placement(ms, before, series_parts(ms, before, base), st, rm, *old, protected_types@, strict));
            assert(conflicts_of(kind, ms, slots(best@)) < conflicts_of(kind, ms, before));
            lemma_series_parts_in_place(ms, before, base, flat(before).len());
            lemma_placed_shape(before, series_parts(ms, before, base), st, rm);
            lemma_counts_fit_same_shape(before, slots(best@));
            lemma_rearranged_trans(start, before, slots(best@));
        }
        best_conflicts = calculate_conflicts(kind, &best, all_sessions);
    }
    best
}

/// What one level of type `kind` guarantees about the schedule `after` it
/// returns for `before`, given the recorded counts `old`:
/// - the shape is kept, and the minisymposia are only rearranged;
/// - the count of `kind` does not grow;
/// - the schedule is unchanged or keeps every protected count acceptable;
/// - the series-room level never returns a changed schedule with series
///   parts out of chronological order;
/// - the personal-classification level is the targeted search restricted
///   to safe slots, 30 rounds; the speaker/organizer level starts with 100
///   rounds of the targeted search over all slots and continues with random
///   exchanges from there (kept as it is when that leaves no conflict);
/// - the classification level keeps a schedule without conflicts of its type;
/// - the series-room level is 30 rounds of the room exchanges
///   (`room_rounds`), the back-to-back level 50 rounds of series placement
///   (`back_rounds`), which end with no conflict, with no series left to
///   place, or after 50 placements that each lowered the count.
pub open spec fn level_outcome(
    kind: ConflictType,
    ms: Seq<Minisymposium>,
    before: Seq<Seq<usize>>,
    after: Seq<Seq<usize>>,
    old: ConflictCounts,
    protected: Seq<ConflictType>,
    strict: bool,
) -> bool {
    &&& same_shape(before, after)
    &&& rearranged(before, after)
    &&& conflicts_of(kind, ms, after) <= conflicts_of(kind, ms, before)
    &&& (after == before || keeps_protection(ms, after, old, protected, strict))
    &&& (kind == ConflictType::SeriesSameRoom && after != before ==> !chronology_broken(ms, after))
    &&& (kind == ConflictType::PersonalClassification ==> after == greedy_result(
        kind,
        true,
        ms,
        before,
        old,
        protected,
        strict,
        30,
    ))
    &&& (kind == ConflictType::SpeakerOrganizer ==> search_outcome(
        kind,
        ms,
        greedy_result(kind, false, ms, before, old, protected, strict, 100),
        after,
        old,
        protected,
        strict,
    ))
    &&& (kind == ConflictType::SpeakerOrganizer && conflicts_of(
        kind,
        ms,
        greedy_result(kind, false, ms, before, old, protected, strict, 100),
    ) == 0 ==> after == greedy_result(kind, false, ms, before, old, protected, strict, 100))
    &&& (kind == ConflictType::Classification && conflicts_of(kind, ms, before) == 0 ==> after == before)
    &&& (kind == ConflictType::SeriesSameRoom ==> after == room_rounds(ms, before, old, protected, strict, 30))
    &&& (kind == ConflictType::SeriesBackToBack ==> conflicts_of(kind, ms, after) == 0 || no_series_fix(
        ms,
        after,
        old,
        protected,
        strict,
    ) || conflicts_of(kind, ms, after) + 50 <= conflicts_of(kind, ms, before))
    &&& (kind == ConflictType::SeriesBackToBack ==> after == back_rounds(ms, before, old, protected, strict, 50))
}

/// Runs the level of type `kind` on one schedule.
pub fn optimize_schedule(
    kind: ConflictType,
    schedule: &Vec<Vec<usize>>,
    all_sessions: &[Minisymposium],
    old: &ConflictCounts,
    protected_types: &[ConflictType],
    strict: bool,
) -> (r: Vec<Vec<usize>>)
    requires
        counts_fit(slots(schedule@)),
    ensures
        level_outcome(kind, all_sessions@, slots(schedule@), slots(r@), *old, protected_types@, strict),
{
    match kind {
        ConflictType::Classification => {
            random_swap_search(kind, 300, schedule, all_sessions, old, protected_types, strict)
        },
        ConflictType::SpeakerOrganizer => {
            let mid = targeted_swap_search(kind, false, 100, schedule, all_sessions, old, protected_types, strict);
            proof {
                lemma_counts_fit_same_shape(slots(schedule@), slots(mid@));
            }
            let r = random_swap_search(kind, 50, &mid, all_sessions, old, protected_types, strict);
            proof {
                lemma_rearranged_trans(slots(schedule@), slots(mid@), slots(r@));
            }
            r
        },
        ConflictType::PersonalClassification => {
            targeted_swap_search(kind, true, 30, schedule, all_sessions, old, protected_types, strict)
        },
        ConflictType::SeriesSameRoom => {
            series_room_search(schedule, all_sessions, old, protected_types, strict)
        },
        ConflictType::SeriesBackToBack => {
            series_back_search(schedule, all_sessions, old, protected_types, strict)
        },
    }
}

/// Every schedule keeps pair counts within an `i32`.
pub open spec fn solutions_fit(solutions: Seq<Solution>) -> bool {
    forall|i: int| 0 <= i < solutions.len() ==> counts_fit(slots(#[trigger] solutions[i].schedule@))
}

/// `out` is what level `kind` makes of the solution `input`: the schedule
/// as `level_outcome` says, the count of `kind` recounted on it, the other
/// counts copied, and the score of the new counts.
pub open spec fn level_solution(
    kind: ConflictType,
    ms: Seq<Minisymposium>,
    input: Solution,
    out: Solution,
    protected: Seq<ConflictType>,
    strict: bool,
) -> bool {
    &&& level_outcome(kind, ms, slots(input.schedule@), slots(out.schedule@), input.conflicts, protected, strict)
    &&& count_of(out.conflicts, kind) as int == conflicts_of(kind, ms, slots(out.schedule@)) as int
    &&& forall|t: ConflictType| t != kind ==> #[trigger] count_of(out.conflicts, t) == count_of(input.conflicts, t)
    &&& out.fitness_score == fitness_of(out.conflicts)
}

/// Optimises the count of `kind` in every solution, protecting the counts of
/// `protected_types` as recorded in each solution.
pub fn optimize_parameter(
    kind: ConflictType,
    solutions: &Vec<Solution>,
    all_sessions: &[Minisymposium],
    config: &SchedulerConfig,
    protected_types: &[ConflictType],
) -> (r: Vec<Solution>)
    requires
        solutions_fit(solutions@),
    ensures
        r@.len() == solutions@.len(),
        forall|i: int|
            0 <= i < r@.len() ==> level_solution(
                kind,
                all_sessions@,
                #[trigger] solutions@[i],
                r@[i],
                protected_types@,
                config.strict_hierarchy,
            ),
{
    let strict = config.strict_hierarchy;
    let mut out: Vec<Solution> = Vec::new();
    let mut i: usize = 0;
    while i < solutions.len()
        invariant
            strict == config.strict_hierarchy,
            i <= solutions@.len(),
            out@.len() == i,
            solutions_fit(solutions@),
            forall|j: int|
                0 <= j < i ==> level_solution(
                    kind,
                    all_sessions@,
                    #[trigger] solutions@[j],
                    out@[j],
                    protected_types@,
                    strict,
                ),
        decreases solutions.len() - i,
    {
        let solution = &solutions[i];
        assert(counts_fit(slots(solutions@[i as int].schedule@)));
        let best = optimize_schedule(kind, &solution.schedule, all_sessions, &solution.conflicts, protected_types, strict);
        proof {
            lemma_counts_fit_same_shape(slots(solution.schedule@), slots(best@));
        }
        let best_conflicts = calculate_conflicts(kind, &best, all_sessions);
        let mut new_conflicts = solution.conflicts;
        new_conflicts.set(kind, best_conflicts);
        let s = Solution::new(best, new_conflicts);
        out.push(s);
        i = i + 1;
    }
    out
}

// ===========================================================================
// The hierarchical engine
// ===========================================================================

/// The five conflict types with the ranks that `c` gives them, in the fixed
/// order classification, speaker/organizer, personal-classification, series
/// room, series back-to-back.
pub open spec fn parameter_list(c: SchedulerConfig) -> Seq<(ConflictType, u8)> {
    seq![
        (ConflictType::Classification, c.classification_rank),
        (ConflictType::SpeakerOrganizer, c.speaker_org_rank),
        (ConflictType::PersonalClassification, c.personal_class_rank),
        (ConflictType::SeriesSameRoom, c.series_room_rank),
        (ConflictType::SeriesBackToBack, c.series_back_rank),
    ]
}

/// Where `e` goes among entries sorted by rank: after every entry whose rank
/// is not larger.
pub open spec fn rank_ins_point(s: Seq<(ConflictType, u8)>, e: (ConflictType, u8)) -> int
    decreases s.len(),
{
    if s.len() == 0 {
        0
    } else if s.last().1 <= e.1 {
        s.len() as int
    } else {
        rank_ins_point(s.drop_last(), e)
    }
}

/// The entries sorted by rank; equal ranks keep their order.
pub open spec fn sort_by_rank(s: Seq<(ConflictType, u8)>) -> Seq<(ConflictType, u8)>
    decreases s.len(),
{
    if s.len() == 0 {
        s
    } else {
        let t = sort_by_rank(s.drop_last());
        t.insert(rank_ins_point(t, s.last()), s.last())
    }
}

/// The conflict type `t` takes part in the optimisation (rank above 0).
pub open spec fn active(t: ConflictType, c: SchedulerConfig) -> bool {
    rank_of(t, c) != 0
}

/// Where solution `e` goes among solutions sorted by their count of `kind`:
/// after every solution whose count is not larger.
pub open spec fn count_ins_point(s: Seq<Solution>, e: Solution, kind: ConflictType) -> int
    decreases s.len(),
{
    if s.len() == 0 {
        0
    } else if count_of(s.last().conflicts, kind) <= count_of(e.conflicts, kind) {
        s.len() as int
    } else {
        count_ins_point(s.drop_last(), e, kind)
    }
}

/// The solutions sorted by their count of `kind`; equal counts keep their
/// order.
pub open spec fn sort_by_count(s: Seq<Solution>, kind: ConflictType) -> Seq<Solution>
    decreases s.len(),
{
    if s.len() == 0 {
        s
    } else {
        let t = sort_by_count(s.drop_last(), kind);
        t.insert(count_ins_point(t, s.last(), kind), s.last())
    }
}

proof fn lemma_count_ins_point_range(s: Seq<Solution>, e: Solution, kind: ConflictType)
    ensures
        0 <= count_ins_point(s, e, kind) <= s.len(),
    decreases s.len(),
{
    if s.len() > 0 {
        lemma_count_ins_point_range(s.drop_last(), e, kind);
    }
}

proof fn lemma_rank_ins_point_range(s: Seq<(ConflictType, u8)>, e: (ConflictType, u8))
    ensures
        0 <= rank_ins_point(s, e) <= s.len(),
    decreases s.len(),
{
    if s.len() > 0 {
        lemma_rank_ins_point_range(s.drop_last(), e);
    }
}

/// Sorting keeps the number of solutions, and every sorted solution is one
/// of the given ones.
proof fn lemma_sort_by_count_members(s: Seq<Solution>, kind: ConflictType)
    ensures
        sort_by_count(s, kind).len() == s.len(),
        forall|i: int| 0 <= i < s.len() ==> s.contains(#[trigger] sort_by_count(s, kind)[i]),
    decreases s.len(),
{
    if s.len() > 0 {
        let prev = s.drop_last();
        lemma_sort_by_count_members(prev, kind);
        let t = sort_by_count(prev, kind);
        let p = count_ins_point(t, s.last(), kind);
        lemma_count_ins_point_range(t, s.last(), kind);
        let u = t.insert(p, s.last());
        assert forall|i: int| 0 <= i < s.len() implies s.contains(#[trigger] u[i]) by {
            if i < p {
                assert(u[i] == t[i]);
                assert(prev.contains(t[i]));
                let j = choose|j: int| 0 <= j < prev.len() && prev[j] == t[i];
                assert(s[j] == prev[j]);
            } else if i == p {
                assert(s[s.len() - 1] == s.last());
            } else {
                assert(u[i] == t[i - 1]);
                assert(prev.contains(t[i - 1]));
                let j = choose|j: int| 0 <= j < prev.len() && prev[j] == t[i - 1];
                assert(s[j] == prev[j]);
            }
        }
    }
}

/// Sorting by rank keeps exactly the entries given.
proof fn lemma_sort_by_rank_perm(s: Seq<(ConflictType, u8)>)
    ensures
        sort_by_rank(s).len() == s.len(),
        forall|i: int| 0 <= i < s.len() ==> s.contains(#[trigger] sort_by_rank(s)[i]),
        forall|x: (ConflictType, u8)| s.contains(x) ==> #[trigger] sort_by_rank(s).contains(x),
    decreases s.len(),
{
    if s.len() > 0 {
        let prev = s.drop_last();
        lemma_sort_by_rank_perm(prev);
        let t = sort_by_rank(prev);
        let p = rank_ins_point(t, s.last());
        lemma_rank_ins_point_range(t, s.last());
        let u = t.insert(p, s.last());
        assert forall|i: int| 0 <= i < s.len() implies s.contains(#[trigger] u[i]) by {
            if i < p {
                assert(u[i] == t[i]);
                assert(prev.contains(t[i]));
                let j = choose|j: int| 0 <= j < prev.len() && prev[j] == t[i];
                assert(s[j] == prev[j]);
            } else if i == p {
                assert(s[s.len() - 1] == s.last());
            } else {
                assert(u[i] == t[i - 1]);
                assert(prev.contains(t[i - 1]));
                let j = choose|j: int| 0 <= j < prev.len() && prev[j] == t[i - 1];
                assert(s[j] == prev[j]);
            }
        }
        assert forall|x: (ConflictType, u8)| s.contains(x) implies #[trigger] u.contains(x) by {
            let j = choose|j: int| 0 <= j < s.len() && s[j] == x;
            if j == s.len() - 1 {
                assert(u[p] == x);
            } else {
                assert(prev[j] == x);
                assert(t.contains(x));
                let k = choose|k: int| 0 <= k < t.len() && t[k] == x;
                if k < p {
                    assert(u[k] == x);
                } else {
                    assert(u[k + 1] == x);
                }
            }
        }
    }
}

/// The schedule of `s` is a rearrangement of the schedule of some given
/// solution.
pub open spec fn derived_from(init: Seq<Solution>, s: Solution) -> bool {
    exists|j: int| 0 <= j < init.len() && #[trigger] rearranged(slots(init[j].schedule@), slots(s.schedule@))
}

/// For every type of `done`, the schedule of `s` has at most the count that
/// `s` records.
pub open spec fn recorded_counts_hold(ms: Seq<Minisymposium>, s: Solution, done: Seq<ConflictType>) -> bool {
    forall|t: ConflictType|
        #[trigger] done.contains(t) ==> conflicts_of(t, ms, slots(s.schedule@)) as int <= count_of(s.conflicts, t) as int
}

/// Runs the levels of optimisation in rank order.
pub struct HierarchicalEngine {
    config: SchedulerConfig,
}

impl HierarchicalEngine {
    /// The configuration the engine runs with.
    pub closed spec fn configuration(&self) -> SchedulerConfig {
        self.config
    }

    /// An engine with `config`.
    pub fn new(config: SchedulerConfig) -> (e: Self)
        ensures
            e.configuration() == config,
    {
        HierarchicalEngine { config }
    }

    /// The five conflict types with their ranks, sorted by rank; equal ranks
    /// keep the fixed order of `parameter_list`.
    pub fn get_sorted_parameters(&self) -> (r: Vec<(ConflictType, u8)>)
        ensures
            r@ == sort_by_rank(parameter_list(self.configuration())),
    {
        let c = &self.config;
        let params: Vec<(ConflictType, u8)> = vec![
            (ConflictType::Classification, c.classification_rank),
            (ConflictType::SpeakerOrganizer, c.speaker_org_rank),
            (ConflictType::PersonalClassification, c.personal_class_rank),
            (ConflictType::SeriesSameRoom, c.series_room_rank),
            (ConflictType::SeriesBackToBack, c.series_back_rank),
        ];
        assert(params@ =~= parameter_list(self.configuration()));
        let mut sorted: Vec<(ConflictType, u8)> = Vec::new();
        let mut i: usize = 0;
        while i < params.len()
            invariant
                i <= params@.len(),
                sorted@ == sort_by_rank(params@.take(i as int)),
            decreases params.len() - i,
        {
            let e = params[i];
            let ghost t = sorted@;
            let mut p: usize = sorted.len();
            assert(t.take(p as int) =~= t);
            while p > 0 && sorted[p - 1].1 > e.1
                invariant
                    sorted@ == t,
                    p <= t.len(),
                    rank_ins_point(t, e) == rank_ins_point(t.take(p as int), e),
                decreases p,
            {
                assert(t.take(p as int).drop_last() =~= t.take(p - 1));
                p = p - 1;
            }
            assert(t.take(0) =~= Seq::<(ConflictType, u8)>::empty());
            sorted.insert(p, e);
            assert(params@.take(i + 1).drop_last() =~= params@.take(i as int));
            i = i + 1;
        }
        assert(params@.take(params@.len() as int) =~= params@);
        sorted
    }

    /// Keeps at most `max_solutions_per_level` solutions: when there are
    /// more, the solutions are sorted by their count of `current_param`
    /// (equal counts keep their order) and the first ones are kept.
    pub fn prune_solutions(&self, solutions: Vec<Solution>, current_param: ConflictType) -> (r: Vec<Solution>)
        ensures
            solutions@.len() <= self.configuration().max_solutions_per_level ==> r@ == solutions@,
            solutions@.len() > self.configuration().max_solutions_per_level ==> r@ == sort_by_count(
                solutions@,
                current_param,
            ).take(self.configuration().max_solutions_per_level as int),
    {
        if solutions.len() <= self.config.max_solutions_per_level {
            return solutions;
        }
        let ghost orig = solutions@;
        let mut rest = solutions;
        let mut sorted: Vec<Solution> = Vec::new();
        let mut k: usize = 0;
        assert(orig.len() == rest.len());
        while rest.len() > 0
            invariant
                orig.len() <= usize::MAX,
                k <= orig.len(),
                rest@ == orig.skip(k as int),
                sorted@ == sort_by_count(orig.take(k as int), current_param),
            decreases rest.len(),
        {
            let e = rest.remove(0);
            assert(e == orig[k as int]);
            let key = e.conflicts.get(current_param);
            let ghost t = sorted@;
            let mut p: usize = sorted.len();
            assert(t.take(p as int) =~= t);
            while p > 0 && sorted[p - 1].conflicts.get(current_param) > key
                invariant
                    sorted@ == t,
                    p <= t.len(),
                    key == count_of(e.conflicts, current_param),
                    count_ins_point(t, e, current_param) == count_ins_point(t.take(p as int), e, current_param),
                decreases p,
            {
                assert(t.take(p as int).drop_last() =~= t.take(p - 1));
                p = p - 1;
            }
            assert(t.take(0) =~= Seq::<Solution>::empty());
            sorted.insert(p, e);
            assert(orig.take(k + 1).drop_last() =~= orig.take(k as int));
            assert(orig.take(k + 1).last() == e);
            k = k + 1;
            assert(rest@ =~= orig.skip(k as int));
        }
        assert(k == orig.len());
        assert(orig.take(k as int) =~= orig);
        proof {
            lemma_sort_by_count_members(orig, current_param);
        }
        sorted.truncate(self.config.max_solutions_per_level);
        sorted
    }
}

/// The solutions that pruning keeps: all of them when there are at most
/// `m`, else the first `m` by their count of `kind`.
pub open spec fn pruned(m: usize, s: Seq<Solution>, kind: ConflictType) -> Seq<Solution> {
    if s.len() <= m {
        s
    } else {
        sort_by_count(s, kind).take(m as int)
    }
}

/// The types of the first `k` parameters whose rank is not zero, in order.
pub open spec fn active_prefix(params: Seq<(ConflictType, u8)>, k: nat) -> Seq<ConflictType>
    decreases k,
{
    if k == 0 {
        Seq::empty()
    } else if params[k - 1].1 != 0 {
        active_prefix(params, (k - 1) as nat).push(params[k - 1].0)
    } else {
        active_prefix(params, (k - 1) as nat)
    }
}

/// Level `k` of a run: a parameter of rank zero leaves the solutions as they
/// are; otherwise every solution of `prev` goes through the level of its type,
/// protecting the types of the earlier active parameters (`mid`), and
/// pruning by the level's type gives `next`.
pub open spec fn level_run(
    c: SchedulerConfig,
    ms: Seq<Minisymposium>,
    params: Seq<(ConflictType, u8)>,
    k: int,
    prev: Seq<Solution>,
    mid: Seq<Solution>,
    next: Seq<Solution>,
) -> bool {
    if params[k].1 == 0 {
        next == prev
    } else {
        &&& mid.len() == prev.len()
        &&& forall|i: int|
            0 <= i < mid.len() ==> level_solution(
                params[k].0,
                ms,
                #[trigger] prev[i],
                mid[i],
                active_prefix(params, k as nat),
                c.strict_hierarchy,
            )
        &&& next == pruned(c.max_solutions_per_level, mid, params[k].0)
    }
}

/// `chain` and `mids` record a run of the levels over `params`, one level
/// per parameter in order: `chain[k]` goes into level `k`, which makes
/// `mids[k]` and keeps `chain[k + 1]`.
pub open spec fn engine_chain(
    c: SchedulerConfig,
    ms: Seq<Minisymposium>,
    params: Seq<(ConflictType, u8)>,
    chain: Seq<Seq<Solution>>,
    mids: Seq<Seq<Solution>>,
) -> bool {
    &&& chain.len() == params.len() + 1
    &&& mids.len() == params.len()
    &&& forall|k: int| 0 <= k < params.len() ==> #[trigger] level_run(c, ms, params, k, chain[k], mids[k], chain[k + 1])
}

/// The engine's result comes out of a run of the levels, in rank order,
/// that starts from the given solutions.
pub open spec fn engine_result(c: SchedulerConfig, ms: Seq<Minisymposium>, init: Seq<Solution>, r: Seq<Solution>) -> bool {
    exists|chain: Seq<Seq<Solution>>, mids: Seq<Seq<Solution>>|
        #[trigger] engine_chain(c, ms, sort_by_rank(parameter_list(c)), chain, mids) && chain[0] == init && chain.last()
            == r
}

/// What the engine keeps true of every current solution: its pair counts
/// fit, it comes from a given solution, and (in strict mode) each type of
/// `done` has at most its recorded count.
pub open spec fn solution_ok(
    init: Seq<Solution>,
    s: Solution,
    strict: bool,
    ms: Seq<Minisymposium>,
    done: Seq<ConflictType>,
) -> bool {
    &&& counts_fit(slots(s.schedule@))
    &&& derived_from(init, s)
    &&& (strict ==> recorded_counts_hold(ms, s, done))
    &&& (strict && done.len() > 0 ==> top_bounded(init, s, ms, done[0]))
}

/// The count recorded in `s` for `t` is at most the count of `t` in a given
/// solution of the same shape.
pub open spec fn top_bounded(init: Seq<Solution>, s: Solution, ms: Seq<Minisymposium>, t: ConflictType) -> bool {
    exists|j: int|
        0 <= j < init.len() && #[trigger] same_shape(slots(init[j].schedule@), slots(s.schedule@)) && count_of(
            s.conflicts,
            t,
        ) as int <= conflicts_of(t, ms, slots(init[j].schedule@)) as int
}

/// The count of `t` in the schedule of `s` is at most its count in a given
/// solution of the same shape.
pub open spec fn top_kept(init: Seq<Solution>, s: Solution, ms: Seq<Minisymposium>, t: ConflictType) -> bool {
    exists|j: int|
        0 <= j < init.len() && #[trigger] same_shape(slots(init[j].schedule@), slots(s.schedule@)) && conflicts_of(
            t,
            ms,
            slots(s.schedule@),
        ) <= conflicts_of(t, ms, slots(init[j].schedule@))
}

/// The index of the first of the first `end` parameters with a rank above
/// 0, if any.
pub open spec fn first_active_index(params: Seq<(ConflictType, u8)>, end: nat) -> Option<int>
    decreases end,
{
    if end == 0 {
        None
    } else {
        match first_active_index(params, (end - 1) as nat) {
            Some(k) => Some(k),
            None => if params[end - 1].1 != 0 {
                Some(end - 1)
            } else {
                None
            },
        }
    }
}

/// The type that the engine optimises first: the active type of lowest
/// rank (the first of equal ranks in the order of `parameter_list`).
pub open spec fn top_type(c: SchedulerConfig) -> Option<ConflictType> {
    let params = sort_by_rank(parameter_list(c));
    match first_active_index(params, params.len()) {
        Some(k) => Some(params[k].0),
        None => None,
    }
}

proof fn lemma_level_step(
    init: Seq<Solution>,
    cur: Seq<Solution>,
    out: Seq<Solution>,
    kind: ConflictType,
    ms: Seq<Minisymposium>,
    done: Seq<ConflictType>,
    strict: bool,
)
    requires
        forall|i: int| 0 <= i < cur.len() ==> solution_ok(init, #[trigger] cur[i], strict, ms, done),
        out.len() == cur.len(),
        forall|i: int| 0 <= i < out.len() ==> level_solution(kind, ms, #[trigger] cur[i], out[i], done, strict),
        done.len() == 0 ==> cur == init,
    ensures
        forall|i: int| 0 <= i < out.len() ==> solution_ok(init, #[trigger] out[i], strict, ms, done.push(kind)),
        forall|i: int| 0 <= i < out.len() ==> (#[trigger] out[i]).fitness_score == fitness_of(out[i].conflicts),
{
    assert forall|i: int| 0 <= i < out.len() implies solution_ok(init, #[trigger] out[i], strict, ms, done.push(kind))
        && out[i].fitness_score == fitness_of(out[i].conflicts) by {
        let a = cur[i];
        let b = out[i];
        assert(level_solution(kind, ms, a, b, done, strict));
        assert(solution_ok(init, a, strict, ms, done));
        lemma_counts_fit_same_shape(slots(a.schedule@), slots(b.schedule@));
        let j = choose|j: int| 0 <= j < init.len() && #[trigger] rearranged(slots(init[j].schedule@), slots(a.schedule@));
        lemma_rearranged_trans(slots(init[j].schedule@), slots(a.schedule@), slots(b.schedule@));
        assert(same_shape(slots(init[j].schedule@), slots(b.schedule@)));
        if strict {
            let t0 = done.push(kind)[0];
            if done.len() == 0 {
                assert(a == init[i]);
                assert(same_shape(slots(init[i].schedule@), slots(b.schedule@)));
                assert(count_of(b.conflicts, t0) as int <= conflicts_of(t0, ms, slots(init[i].schedule@)) as int);
            } else {
                assert(t0 == done[0]);
                assert(top_bounded(init, a, ms, t0));
                let j2 = choose|j2: int|
                    0 <= j2 < init.len() && #[trigger] same_shape(slots(init[j2].schedule@), slots(a.schedule@))
                        && count_of(a.conflicts, t0) as int <= conflicts_of(t0, ms, slots(init[j2].schedule@)) as int;
                assert(done.contains(t0));
                assert(same_shape(slots(init[j2].schedule@), slots(b.schedule@)));
                if t0 == kind {
                    assert(conflicts_of(t0, ms, slots(a.schedule@)) as int <= count_of(a.conflicts, t0) as int);
                }
            }
            assert(top_bounded(init, b, ms, t0));
            assert forall|t: ConflictType| #[trigger] done.push(kind).contains(t) implies conflicts_of(t, ms, slots(b.schedule@))
                as int <= count_of(b.conflicts, t) as int by {
                if t != kind {
                    let q = choose|q: int| 0 <= q < done.len() + 1 && done.push(kind)[q] == t;
                    assert(done[q] == t);
                    assert(done.contains(t));
                    if slots(b.schedule@) != slots(a.schedule@) {
                        assert(keeps_protection(ms, slots(b.schedule@), a.conflicts, done, true));
                        assert(within_protection(conflicts_of(done[q], ms, slots(b.schedule@)) as int, count_of(a.conflicts, done[q]), true));
                    }
                }
            }
        }
    }
}

proof fn lemma_pruned_members(out: Seq<Solution>, pruned: Seq<Solution>, kind: ConflictType, m: usize)
    requires
        out.len() <= m ==> pruned == out,
        out.len() > m ==> pruned == sort_by_count(out, kind).take(m as int),
    ensures
        forall|i: int| 0 <= i < pruned.len() ==> out.contains(#[trigger] pruned[i]),
        pruned.len() == if out.len() > m { m as int } else { out.len() as int },
{
    lemma_sort_by_count_members(out, kind);
    assert forall|i: int| 0 <= i < pruned.len() implies out.contains(#[trigger] pruned[i]) by {
        if out.len() > m {
            assert(pruned[i] == sort_by_count(out, kind)[i]);
        } else {
            assert(pruned[i] == out[i]);
        }
    }
}

proof fn lemma_done_step(
    params: Seq<(ConflictType, u8)>,
    before: Seq<ConflictType>,
    after: Seq<ConflictType>,
    p: int,
)
    requires
        0 <= p < params.len(),
        forall|t: ConflictType|
            #[trigger] before.contains(t) <==> exists|k: int| 0 <= k < p && (#[trigger] params[k]).0 == t && params[k].1 != 0,
        params[p].1 != 0 ==> after == before.push(params[p].0),
        params[p].1 == 0 ==> after == before,
    ensures
        forall|t: ConflictType|
            #[trigger] after.contains(t) <==> exists|k: int| 0 <= k < p + 1 && (#[trigger] params[k]).0 == t && params[k].1 != 0,
{
    assert forall|t: ConflictType|
        #[trigger] after.contains(t) <==> exists|k: int| 0 <= k < p + 1 && (#[trigger] params[k]).0 == t && params[k].1 != 0 by {
        if after.contains(t) {
            let q = choose|q: int| 0 <= q < after.len() && after[q] == t;
            if params[p].1 != 0 && q == before.len() {
                assert(params[p].0 == t);
            } else {
                assert(before[q] == t);
                assert(before.contains(t));
            }
        }
        if exists|k: int| 0 <= k < p + 1 && (#[trigger] params[k]).0 == t && params[k].1 != 0 {
            let k = choose|k: int| 0 <= k < p + 1 && (#[trigger] params[k]).0 == t && params[k].1 != 0;
            if k == p {
                assert(after[before.len() as int] == t);
            } else {
                assert(before.contains(t));
                let q = choose|q: int| 0 <= q < before.len() && before[q] == t;
                assert(after[q] == t);
            }
        }
    }
}

impl HierarchicalEngine {
    /// Runs every conflict type of rank above 0, in the order of
    /// `get_sorted_parameters`: each level optimises its type in every
    /// solution while protecting the types of the levels before it, then
    /// keeps at most `max_solutions_per_level` solutions.
    pub fn optimize(&self, initial_solutions: Vec<Solution>, all_sessions: &[Minisymposium]) -> (r: Vec<Solution>)
        requires
            solutions_fit(initial_solutions@),
        ensures
            (forall|t: ConflictType| !active(t, self.configuration())) ==> r@ == initial_solutions@,
            (exists|t: ConflictType| active(t, self.configuration())) ==> r@.len() == if initial_solutions@.len()
                > self.configuration().max_solutions_per_level {
                self.configuration().max_solutions_per_level as int
            } else {
                initial_solutions@.len() as int
            },
            forall|i: int|
                0 <= i < r@.len() ==> derived_from(initial_solutions@, #[trigger] r@[i]),
            self.configuration().strict_hierarchy ==> forall|i: int, t: ConflictType|
                0 <= i < r@.len() && active(t, self.configuration()) ==> #[trigger] conflicts_of(
                    t,
                    all_sessions@,
                    slots(r@[i].schedule@),
                ) as int <= count_of(r@[i].conflicts, t) as int,
            (exists|t: ConflictType| active(t, self.configuration())) ==> forall|i: int|
                0 <= i < r@.len() ==> (#[trigger] r@[i]).fitness_score == fitness_of(r@[i].conflicts),
            self.configuration().strict_hierarchy && top_type(self.configuration()) is Some ==> forall|i: int|
                0 <= i < r@.len() ==> top_kept(
                    initial_solutions@,
                    #[trigger] r@[i],
                    all_sessions@,
                    top_type(self.configuration()).unwrap(),
                ),
            engine_result(self.configuration(), all_sessions@, initial_solutions@, r@),
    {
        let ghost c = self.configuration();
        let ghost ms = all_sessions@;
        let ghost init = initial_solutions@;
        let ghost strict = c.strict_hierarchy;
        let ghost n = init.len();
        let ghost m = c.max_solutions_per_level;
        let parameters = self.get_sorted_parameters();
        proof {
            lemma_sort_by_rank_perm(parameter_list(c));
            assert forall|k: int| 0 <= k < parameters@.len() implies (#[trigger] parameters@[k]).1 == rank_of(
                parameters@[k].0,
                c,
            ) by {
                assert(parameter_list(c).contains(parameters@[k]));
            }
            assert forall|j: int| 0 <= j < init.len() implies solution_ok(init, #[trigger] init[j], strict, ms, Seq::empty()) by {
                lemma_rearranged_refl(slots(init[j].schedule@));
                assert(same_shape(slots(init[j].schedule@), slots(init[j].schedule@)));
            }
        }
        let mut current = initial_solutions;
        let mut protected_types: Vec<ConflictType> = Vec::new();
        let ghost mut chain: Seq<Seq<Solution>> = seq![init];
        let ghost mut mids: Seq<Seq<Solution>> = Seq::empty();
        let mut p: usize = 0;
        while p < parameters.len()
            invariant
                chain.len() == p + 1,
                mids.len() == p,
                chain[0] == init,
                chain.last() == current@,
                protected_types@ == active_prefix(parameters@, p as nat),
                forall|k: int| 0 <= k < p ==> #[trigger] level_run(c, ms, parameters@, k, chain[k], mids[k], chain[k + 1]),
                c == self.configuration(),
                ms == all_sessions@,
                strict == c.strict_hierarchy,
                n == init.len(),
                m == c.max_solutions_per_level,
                parameters@ == sort_by_rank(parameter_list(c)),
                forall|k: int| 0 <= k < parameters@.len() ==> (#[trigger] parameters@[k]).1 == rank_of(parameters@[k].0, c),
                p <= parameters@.len(),
                forall|t: ConflictType|
                    #[trigger] protected_types@.contains(t) <==> exists|k: int|
                        0 <= k < p && (#[trigger] parameters@[k]).0 == t && parameters@[k].1 != 0,
                forall|i: int| 0 <= i < current@.len() ==> solution_ok(init, #[trigger] current@[i], strict, ms, protected_types@),
                protected_types@.len() == 0 ==> current@ == init,
                (protected_types@.len() > 0) == (first_active_index(parameters@, p as nat) is Some),
                protected_types@.len() > 0 ==> protected_types@[0] == parameters@[first_active_index(
                    parameters@,
                    p as nat,
                ).unwrap()].0,
                protected_types@.len() > 0 ==> current@.len() == if n > m { m as int } else { n as int },
                protected_types@.len() > 0 ==> forall|i: int|
                    0 <= i < current@.len() ==> (#[trigger] current@[i]).fitness_score == fitness_of(current@[i].conflicts),
            decreases parameters.len() - p,
        {
            let (kind, rank) = parameters[p];
            let ghost before = protected_types@;
            let ghost prev_list = current@;
            let ghost mut mid: Seq<Solution> = current@;
            if rank != 0 {
                proof {
                    assert(solutions_fit(current@)) by {
                        assert forall|i: int| 0 <= i < current@.len() implies counts_fit(slots(#[trigger] current@[i].schedule@)) by {
                            assert(solution_ok(init, current@[i], strict, ms, before));
                        }
                    }
                }
                let optimized = optimize_parameter(kind, &current, all_sessions, &self.config, protected_types.as_slice());
                proof {
                    lemma_level_step(init, current@, optimized@, kind, ms, before, strict);
                }
                proof {
                    mid = optimized@;
                }
                current = self.prune_solutions(optimized, kind);
                protected_types.push(kind);
                proof {
                    lemma_pruned_members(optimized@, current@, kind, m);
                    assert forall|i: int| 0 <= i < current@.len() implies solution_ok(init, #[trigger] current@[i], strict, ms, protected_types@)
                        && current@[i].fitness_score == fitness_of(current@[i].conflicts) by {
                        assert(optimized@.contains(current@[i]));
                        let j = choose|j: int| 0 <= j < optimized@.len() && optimized@[j] == current@[i];
                        assert(solution_ok(init, optimized@[j], strict, ms, before.push(kind)));
                    }
                }
            }
            proof {
                assert(level_run(c, ms, parameters@, p as int, prev_list, mid, current@));
                let ghost old_chain = chain;
                let ghost old_mids = mids;
                chain = chain.push(current@);
                mids = mids.push(mid);
                assert forall|k: int| 0 <= k < p + 1 implies #[trigger] level_run(c, ms, parameters@, k, chain[k], mids[k], chain[k + 1]) by {
                    if k < p {
                        assert(chain[k] == old_chain[k]);
                        assert(chain[k + 1] == old_chain[k + 1]);
                        assert(mids[k] == old_mids[k]);
                    }
                }
                lemma_done_step(parameters@, before, protected_types@, p as int);
                assert(first_active_index(parameters@, (p + 1) as nat) == match first_active_index(parameters@, p as nat) {
                    Some(k) => Some(k),
                    None => if parameters@[p as int].1 != 0 {
                        Some(p as int)
                    } else {
                        None
                    },
                });
            }
            p = p + 1;
        }
        proof {
            assert forall|t: ConflictType| active(t, c) implies #[trigger] protected_types@.contains(t) by {
                let e = (t, rank_of(t, c));
                assert(parameter_list(c).contains(e)) by {
                    match t {
                        ConflictType::Classification => { assert(parameter_list(c)[0] == e); },
                        ConflictType::SpeakerOrganizer => { assert(parameter_list(c)[1] == e); },
                        ConflictType::PersonalClassification => { assert(parameter_list(c)[2] == e); },
                        ConflictType::SeriesSameRoom => { assert(parameter_list(c)[3] == e); },
                        ConflictType::SeriesBackToBack => { assert(parameter_list(c)[4] == e); },
                    }
                }
                assert(parameters@.contains(e));
                let k = choose|k: int| 0 <= k < parameters@.len() && parameters@[k] == e;
                assert(parameters@[k].0 == t && parameters@[k].1 != 0);
            }
            if exists|t: ConflictType| active(t, c) {
                let t = choose|t: ConflictType| active(t, c);
                assert(protected_types@.contains(t));
            }
            assert forall|i: int| 0 <= i < current@.len() implies derived_from(init, #[trigger] current@[i]) by {
                assert(solution_ok(init, current@[i], strict, ms, protected_types@));
            }
            if strict && top_type(c) is Some {
                let t0 = top_type(c).unwrap();
                assert(protected_types@.len() > 0);
                assert(protected_types@[0] == t0);
                assert(protected_types@.contains(t0));
                assert forall|i: int| 0 <= i < current@.len() implies top_kept(init, #[trigger] current@[i], ms, t0) by {
                    assert(solution_ok(init, current@[i], strict, ms, protected_types@));
                    assert(top_bounded(init, current@[i], ms, t0));
                    let j = choose|j: int|
                        0 <= j < init.len() && #[trigger] same_shape(slots(init[j].schedule@), slots(current@[i].schedule@))
                            && count_of(current@[i].conflicts, t0) as int <= conflicts_of(t0, ms, slots(init[j].schedule@)) as int;
                    assert(same_shape(slots(init[j].schedule@), slots(current@[i].schedule@)));
                }
            }
            if strict {
                assert forall|i: int, t: ConflictType|
                    0 <= i < current@.len() && active(t, c) implies #[trigger] conflicts_of(t, ms, slots(current@[i].schedule@))
                        as int <= count_of(current@[i].conflicts, t) as int by {
                    assert(protected_types@.contains(t));
                    assert(solution_ok(init, current@[i], strict, ms, protected_types@));
                }
            }
            assert(engine_chain(c, ms, parameters@, chain, mids));
            assert(engine_result(c, ms, init, current@));
            if forall|t: ConflictType| !active(t, c) {
                if protected_types@.len() > 0 {
                    let t = protected_types@[0];
                    assert(protected_types@.contains(t));
                    let k = choose|k: int| 0 <= k < p && (#[trigger] parameters@[k]).0 == t && parameters@[k].1 != 0;
                    assert(active(t, c));
                }
            }
        }
        current
    }
}

} // verus!
