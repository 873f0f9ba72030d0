//! Rearranging a schedule: swaps, cyclic three-way swaps and moves, with the
//! facts that swaps keep every minisymposium in the schedule exactly as often
//! as before; and searches for positions and slots.
use vstd::prelude::*;
use crate::counts::{
    count_where, counts_fit, entries, flat, pair_clash, pair_has_clash, row_count, schedule_count,
    schedule_entries, slot_count, total_entries, tri,
};
use crate::model::{ConflictType, Minisymposium, SchedulerConfig, slots};

verus! {

broadcast use vstd::seq_lib::to_multiset_update;

// ===========================================================================
// Rearrangements
// ===========================================================================

/// How often `x` occurs in the first `end` slots.
pub open spec fn occ_upto(sched: Seq<Seq<usize>>, x: usize, end: nat) -> int
    decreases end,
{
    if end == 0 {
        0
    } else {
        occ_upto(sched, x, (end - 1) as nat) + sched[end - 1].to_multiset().count(x)
    }
}

/// How often minisymposium `x` occurs in a schedule.
pub open spec fn occurrences(sched: Seq<Seq<usize>>, x: usize) -> int {
    occ_upto(sched, x, sched.len())
}

/// Both schedules have the same number of slots, and each slot the same
/// number of rooms.
pub open spec fn same_shape(a: Seq<Seq<usize>>, b: Seq<Seq<usize>>) -> bool {
    a.len() == b.len() && forall|i: int| 0 <= i < a.len() ==> #[trigger] a[i].len() == b[i].len()
}

/// `b` is `a` rearranged: same shape, and every minisymposium occurs in `b`
/// exactly as often as in `a`.
pub open spec fn rearranged(a: Seq<Seq<usize>>, b: Seq<Seq<usize>>) -> bool {
    same_shape(a, b) && forall|x: usize| #[trigger] occurrences(a, x) == occurrences(b, x)
}

proof fn lemma_occ_update(sched: Seq<Seq<usize>>, i: int, s: Seq<usize>, x: usize, end: nat)
    requires
        0 <= i < sched.len(),
        end <= sched.len(),
    ensures
        occ_upto(sched.update(i, s), x, end) == occ_upto(sched, x, end) + if i < end {
            s.to_multiset().count(x) - sched[i].to_multiset().count(x)
        } else {
            0
        },
    decreases end,
{
    if end > 0 {
        lemma_occ_update(sched, i, s, x, (end - 1) as nat);
    }
}

proof fn lemma_entries_same_shape(a: Seq<Seq<usize>>, b: Seq<Seq<usize>>, end: nat)
    requires
        same_shape(a, b),
        end <= a.len(),
    ensures
        entries(a, end) == entries(b, end),
    decreases end,
{
    if end > 0 {
        lemma_entries_same_shape(a, b, (end - 1) as nat);
    }
}

/// Rearranged schedules have the same number of entries.
pub proof fn lemma_rearranged_entries(a: Seq<Seq<usize>>, b: Seq<Seq<usize>>)
    requires
        same_shape(a, b),
    ensures
        total_entries(a) == total_entries(b),
{
    lemma_entries_same_shape(a, b, a.len());
}

/// Every schedule is a rearrangement of itself.
pub proof fn lemma_rearranged_refl(a: Seq<Seq<usize>>)
    ensures
        rearranged(a, a),
{
}

/// Rearrangement is transitive.
pub proof fn lemma_rearranged_trans(a: Seq<Seq<usize>>, b: Seq<Seq<usize>>, c: Seq<Seq<usize>>)
    requires
        rearranged(a, b),
        rearranged(b, c),
    ensures
        rearranged(a, c),
{
}

/// `p` names a room of a slot of the schedule.
pub open spec fn valid_pos(sched: Seq<Seq<usize>>, p: (usize, usize)) -> bool {
    p.0 < sched.len() && p.1 < sched[p.0 as int].len()
}

/// The entry at `p`.
pub open spec fn at(sched: Seq<Seq<usize>>, p: (usize, usize)) -> usize {
    sched[p.0 as int][p.1 as int]
}

/// The schedule with `v` written at `p`.
pub open spec fn write_at(sched: Seq<Seq<usize>>, p: (usize, usize), v: usize) -> Seq<Seq<usize>> {
    sched.update(p.0 as int, sched[p.0 as int].update(p.1 as int, v))
}

/// The schedule with the entries at `p1` and `p2` exchanged.
pub open spec fn swap_at(sched: Seq<Seq<usize>>, p1: (usize, usize), p2: (usize, usize)) -> Seq<Seq<usize>> {
    let v1 = at(sched, p1);
    let v2 = at(sched, p2);
    write_at(write_at(sched, p1, v2), p2, v1)
}

pub(crate) proof fn lemma_write_at(sched: Seq<Seq<usize>>, p: (usize, usize), v: usize, x: usize)
    requires
        valid_pos(sched, p),
    ensures
        same_shape(sched, write_at(sched, p, v)),
        occurrences(write_at(sched, p, v), x) == occurrences(sched, x) + (if v == x {
            1int
        } else {
            0int
        }) - (if at(sched, p) == x {
            1int
        } else {
            0int
        }),
{
    broadcast use vstd::multiset::group_multiset_axioms;
    broadcast use vstd::seq_lib::to_multiset_contains;

    let row = sched[p.0 as int];
    lemma_occ_update(sched, p.0 as int, row.update(p.1 as int, v), x, sched.len());
    assert(row.contains(row[p.1 as int]));
    assert(row.to_multiset().count(row[p.1 as int]) > 0);
    assert(row.update(p.1 as int, v).to_multiset() == row.to_multiset().insert(v).remove(
        row[p.1 as int],
    ));
}

/// Exchanging two entries rearranges the schedule.
pub proof fn lemma_swap_rearranges(sched: Seq<Seq<usize>>, p1: (usize, usize), p2: (usize, usize))
    requires
        valid_pos(sched, p1),
        valid_pos(sched, p2),
    ensures
        rearranged(sched, swap_at(sched, p1, p2)),
{
    let v1 = at(sched, p1);
    let v2 = at(sched, p2);
    let s1 = write_at(sched, p1, v2);
    assert forall|x: usize| #[trigger] occurrences(sched, x) == occurrences(swap_at(sched, p1, p2), x) by {
        lemma_write_at(sched, p1, v2, x);
        lemma_write_at(s1, p2, v1, x);
        if p1 != p2 {
            assert(at(s1, p2) == v2);
        }
    }
    lemma_write_at(sched, p1, v2, 0);
    lemma_write_at(s1, p2, v1, 0);
}

/// Exchanges the entries at `pos1` and `pos2`; does nothing when either is
/// not a position of the schedule.
pub fn apply_swap(schedule: &mut Vec<Vec<usize>>, pos1: (usize, usize), pos2: (usize, usize))
    ensures
        slots(final(schedule)@) == if valid_pos(slots(old(schedule)@), pos1) && valid_pos(
            slots(old(schedule)@),
            pos2,
        ) {
            swap_at(slots(old(schedule)@), pos1, pos2)
        } else {
            slots(old(schedule)@)
        },
        rearranged(slots(old(schedule)@), slots(final(schedule)@)),
{
    let ghost before = slots(schedule@);
    let (s1, r1) = pos1;
    let (s2, r2) = pos2;
    if s1 < schedule.len() && s2 < schedule.len() && r1 < schedule[s1].len() && r2
        < schedule[s2].len() {
        let temp = schedule[s1][r1];
        let other = schedule[s2][r2];
        schedule[s1][r1] = other;
        assert(slots(schedule@) =~= write_at(before, pos1, other));
        schedule[s2][r2] = temp;
        assert(slots(schedule@) =~= swap_at(before, pos1, pos2));
        proof {
            lemma_swap_rearranges(before, pos1, pos2);
        }
    }
}

/// The schedule after the cyclic exchange A <- C, B <- A, C <- B (writes in
/// that order, each writing the value read before any write).
pub open spec fn rotate_at(
    sched: Seq<Seq<usize>>,
    a: (usize, usize),
    b: (usize, usize),
    c: (usize, usize),
) -> Seq<Seq<usize>> {
    let va = at(sched, a);
    let vb = at(sched, b);
    let vc = at(sched, c);
    write_at(write_at(write_at(sched, a, vc), b, va), c, vb)
}

/// Applies a cyclic three-way swap: A <- C, B <- A, C <- B.
pub fn apply_3way_swap(
    schedule: &mut Vec<Vec<usize>>,
    pos_a: (usize, usize),
    pos_b: (usize, usize),
    pos_c: (usize, usize),
)
    requires
        valid_pos(slots(old(schedule)@), pos_a),
        valid_pos(slots(old(schedule)@), pos_b),
        valid_pos(slots(old(schedule)@), pos_c),
    ensures
        slots(final(schedule)@) == rotate_at(slots(old(schedule)@), pos_a, pos_b, pos_c),
        (pos_a != pos_b && pos_b != pos_c && pos_a != pos_c) ==> rearranged(
            slots(old(schedule)@),
            slots(final(schedule)@),
        ),
{
    let ghost before = slots(schedule@);
    let temp_a = schedule[pos_a.0][pos_a.1];
    let temp_b = schedule[pos_b.0][pos_b.1];
    let temp_c = schedule[pos_c.0][pos_c.1];
    schedule[pos_a.0][pos_a.1] = temp_c;
    let ghost s1 = slots(schedule@);
    assert(s1 =~= write_at(before, pos_a, temp_c));
    schedule[pos_b.0][pos_b.1] = temp_a;
    let ghost s2 = slots(schedule@);
    assert(s2 =~= write_at(s1, pos_b, temp_a));
    schedule[pos_c.0][pos_c.1] = temp_b;
    assert(slots(schedule@) =~= write_at(s2, pos_c, temp_b));
    proof {
        if pos_a != pos_b && pos_b != pos_c && pos_a != pos_c {
            assert forall|x: usize| #[trigger] occurrences(before, x) == occurrences(slots(schedule@), x) by {
                lemma_write_at(before, pos_a, temp_c, x);
                lemma_write_at(s1, pos_b, temp_a, x);
                lemma_write_at(s2, pos_c, temp_b, x);
                assert(at(s1, pos_b) == temp_b);
                assert(at(s2, pos_c) == temp_c);
            }
            lemma_write_at(before, pos_a, temp_c, 0);
            lemma_write_at(s1, pos_b, temp_a, 0);
            lemma_write_at(s2, pos_c, temp_b, 0);
        }
    }
}

// ===========================================================================
// Looking up positions
// ===========================================================================

/// Position `q` comes before position `p` in slot-then-room order.
pub open spec fn before_pos(q: (usize, usize), p: (usize, usize)) -> bool {
    q.0 < p.0 || (q.0 == p.0 && q.1 < p.1)
}

/// The first position (slot by slot, room by room) holding minisymposium
/// `ms_idx`, if any.
pub fn find_session_position(schedule: &Vec<Vec<usize>>, ms_idx: usize) -> (r: Option<(usize, usize)>)
    ensures
        match r {
            Some(p) => valid_pos(slots(schedule@), p) && at(slots(schedule@), p) == ms_idx && forall|
                q: (usize, usize),
            |
                valid_pos(slots(schedule@), q) && before_pos(q, p) ==> #[trigger] at(slots(schedule@), q)
                    != ms_idx,
            None => forall|q: (usize, usize)|
                valid_pos(slots(schedule@), q) ==> #[trigger] at(slots(schedule@), q) != ms_idx,
        },
{
    let ghost sched = slots(schedule@);
    let mut s: usize = 0;
    while s < schedule.len()
        invariant
            s <= schedule@.len(),
            sched == slots(schedule@),
            forall|q: (usize, usize)| valid_pos(sched, q) && q.0 < s ==> #[trigger] at(sched, q) != ms_idx,
        decreases schedule.len() - s,
    {
        let mut room: usize = 0;
        while room < schedule[s].len()
            invariant
                s < schedule@.len(),
                room <= schedule@[s as int]@.len(),
                sched == slots(schedule@),
                forall|q: (usize, usize)|
                    valid_pos(sched, q) && (q.0 < s || (q.0 == s && q.1 < room)) ==> #[trigger] at(
                        sched,
                        q,
                    ) != ms_idx,
            decreases schedule@[s as int]@.len() - room,
        {
            if schedule[s][room] == ms_idx {
                assert(at(sched, (s, room)) == ms_idx);
                return Some((s, room));
            }
            room = room + 1;
        }
        s = s + 1;
    }
    None
}

// ===========================================================================
// Slots and positions in conflict
// ===========================================================================

/// The indices `i < end` with `q(i)`, in increasing order.
pub open spec fn indices_where(q: spec_fn(int) -> bool, end: nat) -> Seq<usize>
    decreases end,
{
    if end == 0 {
        Seq::empty()
    } else if q(end - 1) {
        indices_where(q, (end - 1) as nat).push((end - 1) as usize)
    } else {
        indices_where(q, (end - 1) as nat)
    }
}

/// Minisymposium `x` conflicts by `kind` with some minisymposium of slot `s`
/// (itself included, if it is held there).
pub open spec fn slot_has_clash(kind: ConflictType, ms: Seq<Minisymposium>, sched: Seq<Seq<usize>>, x: usize, s: int) -> bool {
    exists|o: int| 0 <= o < sched[s].len() && pair_clash(kind, ms, x, #[trigger] sched[s][o])
}

/// Whether minisymposium `x` conflicts by `kind` with some minisymposium of `slot`.
pub fn clashes_with_slot(kind: ConflictType, x: usize, slot: &Vec<usize>, all_sessions: &[Minisymposium]) -> (r:
    bool)
    ensures
        r == exists|o: int| 0 <= o < slot@.len() && pair_clash(kind, all_sessions@, x, #[trigger] slot@[o]),
{
    let mut o: usize = 0;
    while o < slot.len()
        invariant
            o <= slot@.len(),
            forall|k: int| 0 <= k < o ==> !pair_clash(kind, all_sessions@, x, #[trigger] slot@[k]),
        decreases slot.len() - o,
    {
        let y = slot[o];
        if x < all_sessions.len() && y < all_sessions.len() {
            if pair_has_clash(kind, &all_sessions[x], &all_sessions[y]) {
                assert(pair_clash(kind, all_sessions@, x, slot@[o as int]));
                return true;
            }
        }
        o = o + 1;
    }
    false
}

/// The slots (in increasing order) where minisymposium `ms_idx` has no
/// personal-classification conflict with any minisymposium held there; none
/// when `ms_idx` names no minisymposium.
pub fn find_safe_slots_for_session(ms_idx: usize, schedule: &Vec<Vec<usize>>, all_sessions: &[Minisymposium]) -> (r:
    Vec<usize>)
    ensures
        ms_idx >= all_sessions@.len() ==> r@.len() == 0,
        ms_idx < all_sessions@.len() ==> r@ == indices_where(
            |s: int|
                !slot_has_clash(
                    ConflictType::PersonalClassification,
                    all_sessions@,
                    slots(schedule@),
                    ms_idx,
                    s,
                ),
            schedule@.len(),
        ),
{
    let mut safe: Vec<usize> = Vec::new();
    if ms_idx >= all_sessions.len() {
        return safe;
    }
    let ghost sched = slots(schedule@);
    let ghost q = |s: int|
        !slot_has_clash(ConflictType::PersonalClassification, all_sessions@, sched, ms_idx, s);
    let mut s: usize = 0;
    while s < schedule.len()
        invariant
            s <= schedule@.len(),
            sched == slots(schedule@),
            q == (|s: int|
                !slot_has_clash(ConflictType::PersonalClassification, all_sessions@, sched, ms_idx, s)),
            safe@ == indices_where(q, s as nat),
        decreases schedule.len() - s,
    {
        let c = clashes_with_slot(ConflictType::PersonalClassification, ms_idx, &schedule[s], all_sessions);
        assert(sched[s as int] == schedule@[s as int]@);
        assert(c == !q(s as int));
        if !c {
            safe.push(s);
        }
        s = s + 1;
    }
    safe
}

/// The entry at `(s, r)` conflicts by `kind` with the entry of another room
/// of the same slot.
pub open spec fn has_partner(kind: ConflictType, ms: Seq<Minisymposium>, sched: Seq<Seq<usize>>, s: int, r: int) -> bool {
    exists|o: int|
        0 <= o < sched[s].len() && o != r && pair_clash(kind, ms, sched[s][r], #[trigger] sched[s][o])
}

/// The positions `(slot, room)` of the entries among the first `end` that
/// conflict with another entry of their slot, in entry order.
pub open spec fn partner_positions(
    kind: ConflictType,
    ms: Seq<Minisymposium>,
    sched: Seq<Seq<usize>>,
    end: nat,
) -> Seq<(usize, usize)>
    decreases end,
{
    if end == 0 {
        Seq::empty()
    } else {
        let e = flat(sched)[end - 1];
        let prev = partner_positions(kind, ms, sched, (end - 1) as nat);
        if has_partner(kind, ms, sched, e.0 as int, e.1 as int) {
            prev.push((e.0, e.1))
        } else {
            prev
        }
    }
}

/// Every listed position is a position of the schedule whose entry has a
/// partner in conflict.
pub proof fn lemma_partner_positions_valid(
    kind: ConflictType,
    ms: Seq<Minisymposium>,
    sched: Seq<Seq<usize>>,
    end: nat,
)
    requires
        well_sized(sched),
        end <= flat(sched).len(),
    ensures
        forall|k: int|
            0 <= k < partner_positions(kind, ms, sched, end).len() ==> valid_pos(
                sched,
                #[trigger] partner_positions(kind, ms, sched, end)[k],
            ) && has_partner(
                kind,
                ms,
                sched,
                partner_positions(kind, ms, sched, end)[k].0 as int,
                partner_positions(kind, ms, sched, end)[k].1 as int,
            ),
    decreases end,
{
    if end > 0 {
        lemma_partner_positions_valid(kind, ms, sched, (end - 1) as nat);
        crate::counts::lemma_flat_len(sched, sched.len());
        lemma_flat_entry(sched, sched.len(), end - 1);
        let prev = partner_positions(kind, ms, sched, (end - 1) as nat);
        let cur = partner_positions(kind, ms, sched, end);
        assert forall|k: int| 0 <= k < cur.len() implies valid_pos(sched, #[trigger] cur[k]) && has_partner(
            kind,
            ms,
            sched,
            cur[k].0 as int,
            cur[k].1 as int,
        ) by {
            if k < prev.len() {
                assert(cur[k] == prev[k]);
            }
        }
    }
}

/// Every count of slots and of rooms fits in a `usize`.
pub open spec fn well_sized(sched: Seq<Seq<usize>>) -> bool {
    sched.len() <= usize::MAX && forall|i: int| 0 <= i < sched.len() ==> #[trigger] sched[i].len() <= usize::MAX
}

/// The slots of a schedule held in vectors are well sized.
pub proof fn lemma_slots_well_sized(schedule: Vec<Vec<usize>>)
    ensures
        well_sized(slots(schedule@)),
{
    broadcast use vstd::std_specs::vec::axiom_spec_len;

    assert(slots(schedule@).len() == schedule.len());

    assert forall|i: int| 0 <= i < slots(schedule@).len() implies #[trigger] slots(schedule@)[i].len() <= usize::MAX by {
        assert(slots(schedule@)[i].len() == schedule@[i].len());
    }
}

pub proof fn lemma_flat_entry(sched: Seq<Seq<usize>>, end: nat, k: int)
    requires
        end <= sched.len(),
        well_sized(sched),
        0 <= k < crate::counts::flat_from(sched, end).len(),
    ensures
        ({
            let e = crate::counts::flat_from(sched, end)[k];
            e.0 < end && e.1 < sched[e.0 as int].len() && e.2 == sched[e.0 as int][e.1 as int]
        }),
    decreases end,
{
    if end > 0 {
        let prev = crate::counts::flat_from(sched, (end - 1) as nat);
        if k < prev.len() {
            lemma_flat_entry(sched, (end - 1) as nat, k);
        } else {
            let r = k - prev.len();
            assert(crate::counts::flat_from(sched, end)[k] == ((end - 1) as usize, r as usize, sched[end - 1][r]));
            assert(sched[end - 1].len() <= usize::MAX);
        }
    }
}

/// The positions of all entries that conflict by `kind` with another entry
/// of their slot, slot by slot and room by room.
pub fn find_all_conflicting_positions(
    kind: ConflictType,
    schedule: &Vec<Vec<usize>>,
    all_sessions: &[Minisymposium],
) -> (r: Vec<(usize, usize)>)
    ensures
        r@ == partner_positions(kind, all_sessions@, slots(schedule@), flat(slots(schedule@)).len()),
{
    let ghost sched = slots(schedule@);
    let fl = schedule_entries(schedule);
    let mut out: Vec<(usize, usize)> = Vec::new();
    let mut k: usize = 0;
    while k < fl.len()
        invariant
            k <= fl@.len(),
            sched == slots(schedule@),
            fl@ == flat(sched),
            out@ == partner_positions(kind, all_sessions@, sched, k as nat),
        decreases fl.len() - k,
    {
        let (s, room, x) = fl[k];
        proof {
            crate::counts::lemma_flat_len(sched, sched.len());
            lemma_slots_well_sized(*schedule);
            lemma_flat_entry(sched, sched.len(), k as int);
        }
        let slot = &schedule[s];
        assert(slot@ == sched[s as int]);
        let mut found = false;
        let mut o: usize = 0;
        while o < slot.len() && !found
            invariant
                o <= slot@.len(),
                slot@ == sched[s as int],
                room < slot@.len(),
                x == slot@[room as int],
                found ==> has_partner(kind, all_sessions@, sched, s as int, room as int),
                !found ==> forall|j: int|
                    0 <= j < o ==> !(j != room && pair_clash(kind, all_sessions@, x, #[trigger] slot@[j])),
            decreases slot.len() - o,
        {
            let y = slot[o];
            if o != room && x < all_sessions.len() && y < all_sessions.len() {
                if pair_has_clash(kind, &all_sessions[x], &all_sessions[y]) {
                    assert(pair_clash(kind, all_sessions@, x, slot@[o as int]));
                    found = true;
                }
            }
            o = o + 1;
        }
        assert(found == has_partner(kind, all_sessions@, sched, s as int, room as int));
        if found {
            out.push((s, room));
        }
        k = k + 1;
    }
    out
}

/// The positions of all entries with a speaker/organizer conflict in their
/// slot, slot by slot and room by room.
pub fn find_all_conflicting_sessions(schedule: &Vec<Vec<usize>>, all_sessions: &[Minisymposium]) -> (r:
    Vec<(usize, usize)>)
    ensures
        r@ == partner_positions(
            ConflictType::SpeakerOrganizer,
            all_sessions@,
            slots(schedule@),
            flat(slots(schedule@)).len(),
        ),
{
    find_all_conflicting_positions(ConflictType::SpeakerOrganizer, schedule, all_sessions)
}

/// The positions of all entries with a personal-classification conflict in
/// their slot, slot by slot and room by room.
pub fn find_all_personal_classification_conflicting_sessions(
    schedule: &Vec<Vec<usize>>,
    all_sessions: &[Minisymposium],
) -> (r: Vec<(usize, usize)>)
    ensures
        r@ == partner_positions(
            ConflictType::PersonalClassification,
            all_sessions@,
            slots(schedule@),
            flat(slots(schedule@)).len(),
        ),
{
    find_all_conflicting_positions(ConflictType::PersonalClassification, schedule, all_sessions)
}

/// Room `i` of `slot` is in a speaker/organizer conflicting pair `i < j` or
/// `j < i` of the slot (the earlier room tested first).
pub open spec fn in_conflicting_pair(ms: Seq<Minisymposium>, slot: Seq<usize>, i: int) -> bool {
    ||| exists|j: int|
        i < j < slot.len() && pair_clash(ConflictType::SpeakerOrganizer, ms, slot[i], #[trigger] slot[j])
    ||| exists|j: int|
        0 <= j < i && pair_clash(ConflictType::SpeakerOrganizer, ms, #[trigger] slot[j], slot[i])
}

/// Room `i` has a conflicting partner among the rooms below `j`.
pub open spec fn partners_upto(ms: Seq<Minisymposium>, slot: Seq<usize>, i: int, j: int) -> bool {
    ||| exists|k: int|
        i < k < j && pair_clash(ConflictType::SpeakerOrganizer, ms, slot[i], #[trigger] slot[k])
    ||| exists|k: int|
        0 <= k < j && k < i && pair_clash(ConflictType::SpeakerOrganizer, ms, #[trigger] slot[k], slot[i])
}

proof fn lemma_partners_upto_step(ms: Seq<Minisymposium>, slot: Seq<usize>, i: int, j: int)
    requires
        0 <= i < slot.len(),
        0 <= j < slot.len(),
    ensures
        partners_upto(ms, slot, i, j + 1) == (partners_upto(ms, slot, i, j) || (j > i
            && pair_clash(ConflictType::SpeakerOrganizer, ms, slot[i], slot[j])) || (j < i
            && pair_clash(ConflictType::SpeakerOrganizer, ms, slot[j], slot[i]))),
{
    if j > i && pair_clash(ConflictType::SpeakerOrganizer, ms, slot[i], slot[j]) {
        assert(i < j < j + 1 && pair_clash(ConflictType::SpeakerOrganizer, ms, slot[i], slot[j]));
    }
    if j < i && pair_clash(ConflictType::SpeakerOrganizer, ms, slot[j], slot[i]) {
        assert(0 <= j < j + 1 && j < i && pair_clash(ConflictType::SpeakerOrganizer, ms, slot[j], slot[i]));
    }
}

proof fn lemma_partners_upto_full(ms: Seq<Minisymposium>, slot: Seq<usize>, i: int)
    requires
        0 <= i < slot.len(),
    ensures
        partners_upto(ms, slot, i, slot.len() as int) == in_conflicting_pair(ms, slot, i),
{
}

/// The rooms of `slot` involved in a speaker/organizer conflict, each once,
/// in increasing order.
pub fn find_conflicting_sessions(slot: &[usize], all_sessions: &[Minisymposium]) -> (r: Vec<usize>)
    ensures
        r@ == indices_where(|i: int| in_conflicting_pair(all_sessions@, slot@, i), slot@.len()),
{
    let ghost q = |i: int| in_conflicting_pair(all_sessions@, slot@, i);
    let mut out: Vec<usize> = Vec::new();
    let mut i: usize = 0;
    while i < slot.len()
        invariant
            i <= slot@.len(),
            q == (|i: int| in_conflicting_pair(all_sessions@, slot@, i)),
            out@ == indices_where(q, i as nat),
        decreases slot.len() - i,
    {
        let x = slot[i];
        let mut found = false;
        let mut j: usize = 0;
        while j < slot.len()
            invariant
                j <= slot@.len(),
                i < slot@.len(),
                x == slot@[i as int],
                found == partners_upto(all_sessions@, slot@, i as int, j as int),
            decreases slot.len() - j,
        {
            let y = slot[j];
            if x < all_sessions.len() && y < all_sessions.len() {
                if j > i {
                    if pair_has_clash(ConflictType::SpeakerOrganizer, &all_sessions[x], &all_sessions[y]) {
                        found = true;
                    }
                } else if j < i {
                    if pair_has_clash(ConflictType::SpeakerOrganizer, &all_sessions[y], &all_sessions[x]) {
                        found = true;
                    }
                }
            }
            proof {
                lemma_partners_upto_step(all_sessions@, slot@, i as int, j as int);
            }
            j = j + 1;
        }
        proof {
            lemma_partners_upto_full(all_sessions@, slot@, i as int);
        }
        assert(found == in_conflicting_pair(all_sessions@, slot@, i as int));
        assert(found == q(i as int));
        if found {
            out.push(i);
        }
        i = i + 1;
    }
    out
}

// ===========================================================================
// Choosing a slot and moving an entry
// ===========================================================================

/// The number of entries of slot `s` that conflict with `x` by classification,
/// plus the number that conflict with it by notes keyword.
pub open spec fn slot_score(ms: Seq<Minisymposium>, sched: Seq<Seq<usize>>, x: usize, s: int) -> nat {
    count_where(|o: int| pair_clash(ConflictType::Classification, ms, x, sched[s][o]), sched[s].len())
        + count_where(
        |o: int| pair_clash(ConflictType::PersonalClassification, ms, x, sched[s][o]),
        sched[s].len(),
    )
}

/// The best slot for minisymposium `ms_idx`: among the slots where it has no
/// speaker/organizer conflict, the first one with the fewest classification
/// and personal-classification conflicts. `None` when every slot has a
/// speaker/organizer conflict.
pub fn find_best_slot(ms_idx: usize, schedule: &Vec<Vec<usize>>, all_sessions: &[Minisymposium]) -> (r:
    Option<usize>)
    requires
        forall|s: int| 0 <= s < schedule@.len() ==> 2 * (#[trigger] schedule@[s])@.len() < i32::MAX,
    ensures
        match r {
            Some(b) => {
                &&& b < schedule@.len()
                &&& !slot_has_clash(ConflictType::SpeakerOrganizer, all_sessions@, slots(schedule@), ms_idx, b as int)
                &&& forall|s: int|
                    0 <= s < schedule@.len() && !slot_has_clash(ConflictType::SpeakerOrganizer, all_sessions@, slots(schedule@), ms_idx, s)
                        ==> slot_score(all_sessions@, slots(schedule@), ms_idx, b as int) <= #[trigger] slot_score(all_sessions@, slots(schedule@), ms_idx, s)
                &&& forall|s: int|
                    0 <= s < b && !slot_has_clash(ConflictType::SpeakerOrganizer, all_sessions@, slots(schedule@), ms_idx, s)
                        ==> slot_score(all_sessions@, slots(schedule@), ms_idx, b as int) < #[trigger] slot_score(all_sessions@, slots(schedule@), ms_idx, s)
            },
            None => forall|s: int|
                0 <= s < schedule@.len() ==> #[trigger] slot_has_clash(ConflictType::SpeakerOrganizer, all_sessions@, slots(schedule@), ms_idx, s),
        },
{
    let ghost sched = slots(schedule@);
    let ghost ms = all_sessions@;
    let mut best_slot: Option<usize> = None;
    let mut min_conflicts: i32 = i32::MAX;
    let mut s: usize = 0;
    while s < schedule.len()
        invariant
            s <= schedule@.len(),
            sched == slots(schedule@),
            ms == all_sessions@,
            forall|t: int| 0 <= t < schedule@.len() ==> 2 * (#[trigger] schedule@[t])@.len() < i32::MAX,
            match best_slot {
                Some(b) => {
                    &&& b < s
                    &&& !slot_has_clash(ConflictType::SpeakerOrganizer, ms, sched, ms_idx, b as int)
                    &&& min_conflicts as int == slot_score(ms, sched, ms_idx, b as int)
                    &&& forall|t: int|
                        0 <= t < s && !slot_has_clash(ConflictType::SpeakerOrganizer, ms, sched, ms_idx, t)
                            ==> slot_score(ms, sched, ms_idx, b as int) <= #[trigger] slot_score(ms, sched, ms_idx, t)
                    &&& forall|t: int|
                        0 <= t < b && !slot_has_clash(ConflictType::SpeakerOrganizer, ms, sched, ms_idx, t)
                            ==> slot_score(ms, sched, ms_idx, b as int) < #[trigger] slot_score(ms, sched, ms_idx, t)
                },
                None => {
                    &&& min_conflicts == i32::MAX
                    &&& forall|t: int| 0 <= t < s ==> #[trigger] slot_has_clash(ConflictType::SpeakerOrganizer, ms, sched, ms_idx, t)
                },
            },
        decreases schedule.len() - s,
    {
        let slot = &schedule[s];
        assert(slot@ == sched[s as int]);
        let blocked = clashes_with_slot(ConflictType::SpeakerOrganizer, ms_idx, slot, all_sessions);
        if !blocked {
            let ghost c1 = |o: int| pair_clash(ConflictType::Classification, ms, ms_idx, sched[s as int][o]);
            let ghost c2 = |o: int| pair_clash(ConflictType::PersonalClassification, ms, ms_idx, sched[s as int][o]);
            let mut other_conflicts: i32 = 0;
            let mut o: usize = 0;
            while o < slot.len()
                invariant
                    o <= slot@.len(),
                    slot@ == sched[s as int],
                    ms == all_sessions@,
                    2 * slot@.len() < i32::MAX,
                    c1 == (|o: int| pair_clash(ConflictType::Classification, ms, ms_idx, sched[s as int][o])),
                    c2 == (|o: int| pair_clash(ConflictType::PersonalClassification, ms, ms_idx, sched[s as int][o])),
                    other_conflicts as int == count_where(c1, o as nat) + count_where(c2, o as nat),
                    count_where(c1, o as nat) <= o,
                    count_where(c2, o as nat) <= o,
                decreases slot.len() - o,
            {
                let y = slot[o];
                if y < all_sessions.len() && ms_idx < all_sessions.len() {
                    if pair_has_clash(ConflictType::Classification, &all_sessions[ms_idx], &all_sessions[y]) {
                        other_conflicts = other_conflicts + 1;
                    }
                    if pair_has_clash(ConflictType::PersonalClassification, &all_sessions[ms_idx], &all_sessions[y]) {
                        other_conflicts = other_conflicts + 1;
                    }
                }
                o = o + 1;
            }
            assert(other_conflicts as int == slot_score(ms, sched, ms_idx, s as int));
            if other_conflicts < min_conflicts {
                min_conflicts = other_conflicts;
                best_slot = Some(s);
            }
        }
        s = s + 1;
    }
    best_slot
}

/// The schedule after moving the entry at `(from_slot, from_room)` to the
/// end of slot `to_slot`.
pub open spec fn moved(sched: Seq<Seq<usize>>, from_slot: int, from_room: int, to_slot: int) -> Seq<Seq<usize>> {
    let v = sched[from_slot][from_room];
    let s1 = sched.update(from_slot, sched[from_slot].remove(from_room));
    s1.update(to_slot, s1[to_slot].push(v))
}

/// Moves the entry at `(from_slot, from_room)` to the end of slot
/// `to_slot`, unless a position is not in the schedule or the target slot is
/// already full (`config.num_rooms` rooms). Returns whether it moved.
pub fn move_session(
    schedule: &mut Vec<Vec<usize>>,
    from_slot: usize,
    from_room: usize,
    to_slot: usize,
    config: &SchedulerConfig,
) -> (r: bool)
    ensures
        r == (from_slot < old(schedule)@.len() && to_slot < old(schedule)@.len() && from_room
            < old(schedule)@[from_slot as int]@.len() && old(schedule)@[to_slot as int]@.len()
            < config.num_rooms),
        r ==> slots(final(schedule)@) == moved(slots(old(schedule)@), from_slot as int, from_room as int, to_slot as int),
        !r ==> final(schedule)@ == old(schedule)@,
        forall|x: usize| #[trigger] occurrences(slots(final(schedule)@), x) == occurrences(slots(old(schedule)@), x),
        slots(final(schedule)@).len() == slots(old(schedule)@).len(),
{
    let ghost before = slots(schedule@);
    if from_slot < schedule.len() && to_slot < schedule.len() && from_room < schedule[from_slot].len() {
        if schedule[to_slot].len() >= config.num_rooms {
            return false;
        }
        let ms_idx = schedule[from_slot].remove(from_room);
        let ghost s1 = slots(schedule@);
        assert(s1 =~= before.update(from_slot as int, before[from_slot as int].remove(from_room as int)));
        schedule[to_slot].push(ms_idx);
        assert(slots(schedule@) =~= s1.update(to_slot as int, s1[to_slot as int].push(ms_idx)));
        proof {
            broadcast use vstd::multiset::group_multiset_axioms;
            broadcast use vstd::seq_lib::to_multiset_contains;
            broadcast use vstd::seq_lib::to_multiset_remove;
            broadcast use vstd::seq_lib::to_multiset_build;

            let row = before[from_slot as int];
            let v = row[from_room as int];
            assert(row.contains(v));
            assert forall|x: usize| #[trigger] occurrences(slots(schedule@), x) == occurrences(before, x) by {
                lemma_occ_update(before, from_slot as int, row.remove(from_room as int), x, before.len());
                lemma_occ_update(s1, to_slot as int, s1[to_slot as int].push(v), x, s1.len());
                assert(row.remove(from_room as int).to_multiset() == row.to_multiset().remove(v));
                assert(s1[to_slot as int].push(v).to_multiset() == s1[to_slot as int].to_multiset().insert(v));
            }
        }
        return true;
    }
    false
}

// ===========================================================================
// Listing conflicting pairs
// ===========================================================================

/// The conflicting pairs `(slot[i], slot[j])`, `i < j < end`, of a row `i`.
pub open spec fn row_pairs_list(kind: ConflictType, ms: Seq<Minisymposium>, slot: Seq<usize>, i: nat, end: nat) -> Seq<(usize, usize)>
    decreases end,
{
    if end <= i + 1 {
        Seq::empty()
    } else {
        let prev = row_pairs_list(kind, ms, slot, i, (end - 1) as nat);
        if pair_clash(kind, ms, slot[i as int], slot[end - 1]) {
            prev.push((slot[i as int], slot[end - 1]))
        } else {
            prev
        }
    }
}

/// The conflicting pairs of a slot with first position below `end`.
pub open spec fn slot_pairs_list(kind: ConflictType, ms: Seq<Minisymposium>, slot: Seq<usize>, end: nat) -> Seq<(usize, usize)>
    decreases end,
{
    if end == 0 {
        Seq::empty()
    } else {
        slot_pairs_list(kind, ms, slot, (end - 1) as nat) + row_pairs_list(kind, ms, slot, (end - 1) as nat, slot.len())
    }
}

/// The conflicting same-slot pairs of the first `end` slots, slot by slot.
pub open spec fn schedule_pairs_list(kind: ConflictType, ms: Seq<Minisymposium>, sched: Seq<Seq<usize>>, end: nat) -> Seq<(usize, usize)>
    decreases end,
{
    if end == 0 {
        Seq::empty()
    } else {
        schedule_pairs_list(kind, ms, sched, (end - 1) as nat) + slot_pairs_list(kind, ms, sched[end - 1], sched[end - 1].len())
    }
}

proof fn lemma_row_list_len(kind: ConflictType, ms: Seq<Minisymposium>, slot: Seq<usize>, i: nat, end: nat)
    ensures
        row_pairs_list(kind, ms, slot, i, end).len() == row_count(kind, ms, slot, i, end),
    decreases end,
{
    if end > i + 1 {
        lemma_row_list_len(kind, ms, slot, i, (end - 1) as nat);
    }
}

proof fn lemma_slot_list_len(kind: ConflictType, ms: Seq<Minisymposium>, slot: Seq<usize>, end: nat)
    ensures
        slot_pairs_list(kind, ms, slot, end).len() == slot_count(kind, ms, slot, end),
    decreases end,
{
    if end > 0 {
        lemma_slot_list_len(kind, ms, slot, (end - 1) as nat);
        lemma_row_list_len(kind, ms, slot, (end - 1) as nat, slot.len());
    }
}

/// The listed conflicting pairs are exactly as many as the conflicts counted
/// for the same type.
pub proof fn lemma_pairs_list_len(kind: ConflictType, ms: Seq<Minisymposium>, sched: Seq<Seq<usize>>, end: nat)
    ensures
        schedule_pairs_list(kind, ms, sched, end).len() == schedule_count(kind, ms, sched, end),
    decreases end,
{
    if end > 0 {
        lemma_pairs_list_len(kind, ms, sched, (end - 1) as nat);
        lemma_slot_list_len(kind, ms, sched[end - 1], sched[end - 1].len());
    }
}

/// The pairs `(first, second)` of minisymposium indices held in the same slot
/// that have a personal-classification conflict, slot by slot, in room order.
pub fn find_personal_classification_conflicts(schedule: &Vec<Vec<usize>>, all_sessions: &[Minisymposium]) -> (r:
    Vec<(usize, usize)>)
    ensures
        r@ == schedule_pairs_list(ConflictType::PersonalClassification, all_sessions@, slots(schedule@), schedule@.len() as nat),
{
    let kind = ConflictType::PersonalClassification;
    let ghost sched = slots(schedule@);
    let ghost ms = all_sessions@;
    let mut out: Vec<(usize, usize)> = Vec::new();
    let mut s: usize = 0;
    while s < schedule.len()
        invariant
            s <= schedule@.len(),
            sched == slots(schedule@),
            ms == all_sessions@,
            kind == ConflictType::PersonalClassification,
            out@ == schedule_pairs_list(kind, ms, sched, s as nat),
        decreases schedule.len() - s,
    {
        let slot = &schedule[s];
        let ghost sl = slot@;
        assert(sl == sched[s as int]);
        let ghost base = out@;
        let mut i: usize = 0;
        while i < slot.len()
            invariant
                sl == slot@,
                ms == all_sessions@,
                kind == ConflictType::PersonalClassification,
                i <= sl.len(),
                out@ == base + slot_pairs_list(kind, ms, sl, i as nat),
            decreases slot.len() - i,
        {
            let ghost mid = out@;
            let mut j: usize = i + 1;
            while j < slot.len()
                invariant
                    sl == slot@,
                    ms == all_sessions@,
                    kind == ConflictType::PersonalClassification,
                    i < sl.len(),
                    i + 1 <= j <= sl.len(),
                    mid == base + slot_pairs_list(kind, ms, sl, i as nat),
                    out@ == mid + row_pairs_list(kind, ms, sl, i as nat, j as nat),
                decreases slot.len() - j,
            {
                let a = slot[i];
                let b = slot[j];
                if a < all_sessions.len() && b < all_sessions.len() {
                    if pair_has_clash(kind, &all_sessions[a], &all_sessions[b]) {
                        out.push((a, b));
                    }
                }
                assert(out@ =~= mid + row_pairs_list(kind, ms, sl, i as nat, (j + 1) as nat));
                j = j + 1;
            }
            assert(out@ =~= base + slot_pairs_list(kind, ms, sl, (i + 1) as nat));
            i = i + 1;
        }
        assert(out@ =~= schedule_pairs_list(kind, ms, sched, (s + 1) as nat));
        s = s + 1;
    }
    out
}

} // verus!
