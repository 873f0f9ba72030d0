//! Counting the conflicts of a schedule. The three pairwise kinds
//! (classification, speaker/organizer, personal-classification) count the
//! unordered pairs of minisymposia held in the same time slot that conflict.
use vstd::prelude::*;
use crate::conflict_detection::{
    has_personal_classification_conflict as notes_conflict, has_series_back_to_back_conflict,
    has_speaker_organizer_conflict as people_conflict, notes_clash, series_back_to_back_clash,
    share_person,
};
use crate::model::{ConflictCounts, ConflictType, Minisymposium, count_of, slots};

verus! {

// ===========================================================================
// Pairwise conflict tests on minisymposia
// ===========================================================================

/// The two minisymposia share a classification code.
pub open spec fn class_clash(a: Minisymposium, b: Minisymposium) -> bool {
    exists|i: int, j: int|
        0 <= i < a.classification@.len() && 0 <= j < b.classification@.len()
            && #[trigger] a.classification@[i] == #[trigger] b.classification@[j]
}

/// Some speaker or organizer of `a` is also one of `b` (normalised names).
pub open spec fn person_clash(a: Minisymposium, b: Minisymposium) -> bool {
    share_person(a.speakers@ + a.organizers@, b.speakers@ + b.organizers@)
}

/// The notes keywords of `a` and `b` match exactly.
pub open spec fn keyword_clash(a: Minisymposium, b: Minisymposium) -> bool {
    notes_clash(a.notes@, b.notes@)
}

/// The pairwise test of conflict type `kind` (false for the series types,
/// which are not pairwise tests of the same slot).
pub open spec fn ms_clash(kind: ConflictType, a: Minisymposium, b: Minisymposium) -> bool {
    match kind {
        ConflictType::Classification => class_clash(a, b),
        ConflictType::SpeakerOrganizer => person_clash(a, b),
        ConflictType::PersonalClassification => keyword_clash(a, b),
        _ => false,
    }
}

/// Whether two minisymposia share a classification code.
pub fn has_classification_conflict(ms1: &Minisymposium, ms2: &Minisymposium) -> (r: bool)
    ensures
        r == class_clash(*ms1, *ms2),
{
    let mut i: usize = 0;
    while i < ms1.classification.len()
        invariant
            i <= ms1.classification@.len(),
            forall|a: int, b: int|
                0 <= a < i && 0 <= b < ms2.classification@.len() ==> #[trigger] ms1.classification@[a]
                    != #[trigger] ms2.classification@[b],
        decreases ms1.classification.len() - i,
    {
        let mut j: usize = 0;
        while j < ms2.classification.len()
            invariant
                i < ms1.classification@.len(),
                j <= ms2.classification@.len(),
                forall|a: int, b: int|
                    0 <= a < i && 0 <= b < ms2.classification@.len() ==> #[trigger] ms1.classification@[a]
                        != #[trigger] ms2.classification@[b],
                forall|b: int|
                    0 <= b < j ==> ms1.classification@[i as int] != #[trigger] ms2.classification@[b],
            decreases ms2.classification.len() - j,
        {
            if ms1.classification[i] == ms2.classification[j] {
                return true;
            }
            j = j + 1;
        }
        i = i + 1;
    }
    false
}

/// Whether two minisymposia share a speaker or organizer.
pub fn has_speaker_organizer_conflict(ms1: &Minisymposium, ms2: &Minisymposium) -> (r: bool)
    ensures
        r == person_clash(*ms1, *ms2),
{
    people_conflict(
        ms1.speakers.as_slice(),
        ms1.organizers.as_slice(),
        ms2.speakers.as_slice(),
        ms2.organizers.as_slice(),
    )
}

/// Whether two minisymposia have the same notes keyword.
pub fn has_personal_classification_conflict(ms1: &Minisymposium, ms2: &Minisymposium) -> (r:
    bool)
    ensures
        r == keyword_clash(*ms1, *ms2),
{
    notes_conflict(ms1.notes.as_str(), ms2.notes.as_str())
}

/// The pairwise test of conflict type `kind`.
pub fn pair_has_clash(kind: ConflictType, ms1: &Minisymposium, ms2: &Minisymposium) -> (r: bool)
    ensures
        r == ms_clash(kind, *ms1, *ms2),
{
    match kind {
        ConflictType::Classification => has_classification_conflict(ms1, ms2),
        ConflictType::SpeakerOrganizer => has_speaker_organizer_conflict(ms1, ms2),
        ConflictType::PersonalClassification => has_personal_classification_conflict(ms1, ms2),
        _ => false,
    }
}

// ===========================================================================
// Counting pairs
// ===========================================================================

/// Both indices name minisymposia and the two conflict by `kind`.
pub open spec fn pair_clash(kind: ConflictType, ms: Seq<Minisymposium>, x: usize, y: usize) -> bool {
    x < ms.len() && y < ms.len() && ms_clash(kind, ms[x as int], ms[y as int])
}

/// The number of positions `j` with `i < j < end` whose entry conflicts with
/// the entry at `i`.
pub open spec fn row_count(
    kind: ConflictType,
    ms: Seq<Minisymposium>,
    slot: Seq<usize>,
    i: nat,
    end: nat,
) -> nat
    decreases end,
{
    if end <= i + 1 {
        0
    } else {
        row_count(kind, ms, slot, i, (end - 1) as nat) + if pair_clash(
            kind,
            ms,
            slot[i as int],
            slot[end - 1],
        ) {
            1nat
        } else {
            0nat
        }
    }
}

/// The number of conflicting pairs `i < j` of a slot with `i < end`.
pub open spec fn slot_count(kind: ConflictType, ms: Seq<Minisymposium>, slot: Seq<usize>, end: nat) -> nat
    decreases end,
{
    if end == 0 {
        0
    } else {
        slot_count(kind, ms, slot, (end - 1) as nat) + row_count(
            kind,
            ms,
            slot,
            (end - 1) as nat,
            slot.len(),
        )
    }
}

/// The number of conflicting same-slot pairs in the first `end` slots.
pub open spec fn schedule_count(
    kind: ConflictType,
    ms: Seq<Minisymposium>,
    sched: Seq<Seq<usize>>,
    end: nat,
) -> nat
    decreases end,
{
    if end == 0 {
        0
    } else {
        schedule_count(kind, ms, sched, (end - 1) as nat) + slot_count(
            kind,
            ms,
            sched[end - 1],
            sched[end - 1].len(),
        )
    }
}

/// The number of unordered pairs of minisymposia held in the same slot that
/// conflict by `kind` (entries that are not valid indices are skipped).
pub open spec fn pairwise_conflicts(kind: ConflictType, ms: Seq<Minisymposium>, sched: Seq<Seq<usize>>) -> nat {
    schedule_count(kind, ms, sched, sched.len())
}

/// `0 + 1 + ... + (n - 1)`: the number of unordered pairs among `n` items.
pub open spec fn tri(n: nat) -> nat
    decreases n,
{
    if n == 0 {
        0
    } else {
        ((n - 1) + tri((n - 1) as nat)) as nat
    }
}

/// The number of entries in the first `end` slots.
pub open spec fn entries(sched: Seq<Seq<usize>>, end: nat) -> nat
    decreases end,
{
    if end == 0 {
        0
    } else {
        entries(sched, (end - 1) as nat) + sched[end - 1].len()
    }
}

/// The number of entries of a schedule.
pub open spec fn total_entries(sched: Seq<Seq<usize>>) -> nat {
    entries(sched, sched.len())
}

/// Any count of pairs of entries of the schedule fits in an `i32`.
pub open spec fn counts_fit(sched: Seq<Seq<usize>>) -> bool {
    tri(total_entries(sched)) <= i32::MAX
}

pub proof fn lemma_tri_mono(a: nat, b: nat)
    requires
        a <= b,
    ensures
        tri(a) <= tri(b),
    decreases b,
{
    if a < b {
        lemma_tri_mono(a, (b - 1) as nat);
    }
}

pub proof fn lemma_tri_super(a: nat, b: nat)
    ensures
        tri(a) + tri(b) <= tri(a + b),
    decreases b,
{
    if b > 0 {
        lemma_tri_super(a, (b - 1) as nat);
        assert(tri(a + b) == (a + b - 1) + tri((a + b - 1) as nat));
    }
}


proof fn lemma_entries_mono_end(sched: Seq<Seq<usize>>, a: nat, b: nat)
    requires
        a <= b <= sched.len(),
    ensures
        entries(sched, a) <= entries(sched, b),
    decreases b,
{
    if a < b {
        lemma_entries_mono_end(sched, a, (b - 1) as nat);
    }
}

/// Whether every count of conflicting pairs of `schedule` fits in an `i32`
/// (what `calculate_all_conflicts` needs).
pub fn schedule_counts_fit(schedule: &Vec<Vec<usize>>) -> (r: bool)
    ensures
        r == counts_fit(slots(schedule@)),
{
    let ghost sched = slots(schedule@);
    let limit: usize = 70000;
    let mut n: usize = 0;
    let mut s: usize = 0;
    while s < schedule.len()
        invariant
            sched == slots(schedule@),
            s <= sched.len(),
            n as nat == entries(sched, s as nat),
            n <= 70000,
            limit == 70000,
        decreases schedule.len() - s,
    {
        let len = schedule[s].len();
        assert(len == sched[s as int].len());
        if len > limit - n {
            proof {
                lemma_entries_mono_end(sched, (s + 1) as nat, sched.len());
                lemma_tri_mono(70000, total_entries(sched));
                assert(tri(70000) > i32::MAX) by {
                    lemma_tri_value(70000);
                }
            }
            return false;
        }
        n = n + len;
        s = s + 1;
    }
    let mut t: u64 = 0;
    let mut k: usize = 0;
    while k < n
        invariant
            k <= n <= 70000,
            sched == slots(schedule@),
            n as nat == total_entries(sched),
            t as nat == tri(k as nat),
            t <= i32::MAX,
        decreases n - k,
    {
        if t + k as u64 > i32::MAX as u64 {
            proof {
                lemma_tri_mono((k + 1) as nat, n as nat);
            }
            return false;
        }
        t = t + k as u64;
        k = k + 1;
    }
    true
}

/// `tri(n) == n * (n - 1) / 2`.
pub(crate) proof fn lemma_tri_value(n: nat)
    ensures
        tri(n) * 2 == n * (n - 1),
    decreases n,
{
    if n > 0 {
        let m = (n - 1) as nat;
        lemma_tri_value(m);
        assert(tri(n) == m + tri(m));
        assert(tri(m) * 2 == m * (m - 1));
        let tn = tri(n);
        let tm = tri(m);
        assert(tn * 2 == n * (n - 1)) by (nonlinear_arith)
            requires
                tn == m + tm,
                tm * 2 == m * (m - 1),
                n == m + 1,
        ;
    } else {
        assert(n * (n - 1) == 0) by (nonlinear_arith)
            requires
                n == 0,
        ;
    }
}

proof fn lemma_row_bound(kind: ConflictType, ms: Seq<Minisymposium>, slot: Seq<usize>, i: nat, end: nat)
    ensures
        end > i ==> row_count(kind, ms, slot, i, end) <= end - i - 1,
        end <= i ==> row_count(kind, ms, slot, i, end) == 0,
    decreases end,
{
    if end > i + 1 {
        lemma_row_bound(kind, ms, slot, i, (end - 1) as nat);
    }
}

proof fn lemma_row_mono(kind: ConflictType, ms: Seq<Minisymposium>, slot: Seq<usize>, i: nat, e1: nat, e2: nat)
    requires
        e1 <= e2,
    ensures
        row_count(kind, ms, slot, i, e1) <= row_count(kind, ms, slot, i, e2),
    decreases e2,
{
    if e1 < e2 {
        lemma_row_mono(kind, ms, slot, i, e1, (e2 - 1) as nat);
    }
}

proof fn lemma_slot_bound(kind: ConflictType, ms: Seq<Minisymposium>, slot: Seq<usize>, end: nat)
    requires
        end <= slot.len(),
    ensures
        slot_count(kind, ms, slot, end) + tri((slot.len() - end) as nat) <= tri(slot.len()),
    decreases end,
{
    if end > 0 {
        lemma_slot_bound(kind, ms, slot, (end - 1) as nat);
        lemma_row_bound(kind, ms, slot, (end - 1) as nat, slot.len());
        assert(tri((slot.len() - end + 1) as nat) == (slot.len() - end) + tri(
            (slot.len() - end) as nat,
        ));
    }
}

proof fn lemma_slot_mono(kind: ConflictType, ms: Seq<Minisymposium>, slot: Seq<usize>, e1: nat, e2: nat)
    requires
        e1 <= e2,
    ensures
        slot_count(kind, ms, slot, e1) <= slot_count(kind, ms, slot, e2),
    decreases e2,
{
    if e1 < e2 {
        lemma_slot_mono(kind, ms, slot, e1, (e2 - 1) as nat);
    }
}

proof fn lemma_schedule_bound(kind: ConflictType, ms: Seq<Minisymposium>, sched: Seq<Seq<usize>>, end: nat)
    requires
        end <= sched.len(),
    ensures
        schedule_count(kind, ms, sched, end) <= tri(entries(sched, end)),
    decreases end,
{
    if end > 0 {
        lemma_schedule_bound(kind, ms, sched, (end - 1) as nat);
        lemma_slot_bound(kind, ms, sched[end - 1], sched[end - 1].len());
        lemma_tri_super(entries(sched, (end - 1) as nat), sched[end - 1].len());
    }
}

proof fn lemma_schedule_mono(kind: ConflictType, ms: Seq<Minisymposium>, sched: Seq<Seq<usize>>, e1: nat, e2: nat)
    requires
        e1 <= e2,
    ensures
        schedule_count(kind, ms, sched, e1) <= schedule_count(kind, ms, sched, e2),
    decreases e2,
{
    if e1 < e2 {
        lemma_schedule_mono(kind, ms, sched, e1, (e2 - 1) as nat);
    }
}

/// A clashing pair held in one slot makes the pairwise count positive.
pub(crate) proof fn lemma_clash_counted(
    kind: ConflictType,
    ms: Seq<Minisymposium>,
    sched: Seq<Seq<usize>>,
    s: int,
    a: int,
    b: int,
)
    requires
        0 <= s < sched.len(),
        0 <= a < b < sched[s].len(),
        pair_clash(kind, ms, sched[s][a], sched[s][b]),
    ensures
        pairwise_conflicts(kind, ms, sched) > 0,
{
    let slot = sched[s];
    assert(row_count(kind, ms, slot, a as nat, (b + 1) as nat) >= 1);
    lemma_row_mono(kind, ms, slot, a as nat, (b + 1) as nat, slot.len());
    assert(slot_count(kind, ms, slot, (a + 1) as nat) >= 1);
    lemma_slot_mono(kind, ms, slot, (a + 1) as nat, slot.len());
    assert(schedule_count(kind, ms, sched, (s + 1) as nat) >= 1);
    lemma_schedule_mono(kind, ms, sched, (s + 1) as nat, sched.len());
}

pub proof fn lemma_entries_mono(sched: Seq<Seq<usize>>, e1: nat, e2: nat)
    requires
        e1 <= e2,
    ensures
        entries(sched, e1) <= entries(sched, e2),
    decreases e2,
{
    if e1 < e2 {
        lemma_entries_mono(sched, e1, (e2 - 1) as nat);
    }
}

/// The count of the pairwise conflict type `kind` in `schedule`: the number
/// of unordered same-slot pairs whose minisymposia conflict.
pub fn count_pairwise_conflicts(
    kind: ConflictType,
    schedule: &Vec<Vec<usize>>,
    all_sessions: &[Minisymposium],
) -> (r: i32)
    requires
        counts_fit(slots(schedule@)),
    ensures
        r >= 0,
        r as nat == pairwise_conflicts(kind, all_sessions@, slots(schedule@)),
{
    let ghost sched = slots(schedule@);
    let ghost ms = all_sessions@;
    proof {
        lemma_schedule_bound(kind, ms, sched, sched.len());
    }
    let mut conflicts: i32 = 0;
    let mut s: usize = 0;
    while s < schedule.len()
        invariant
            s <= schedule@.len(),
            sched == slots(schedule@),
            ms == all_sessions@,
            schedule_count(kind, ms, sched, sched.len()) <= i32::MAX,
            conflicts >= 0,
            conflicts as nat == schedule_count(kind, ms, sched, s as nat),
        decreases schedule.len() - s,
    {
        let slot = &schedule[s];
        let ghost sl = slot@;
        assert(sl == sched[s as int]);
        proof {
            lemma_schedule_mono(kind, ms, sched, (s + 1) as nat, sched.len());
        }
        let mut i: usize = 0;
        while i < slot.len()
            invariant
                s < schedule@.len(),
                sl == slot@,
                sl == sched[s as int],
                sched == slots(schedule@),
                ms == all_sessions@,
                i <= sl.len(),
                schedule_count(kind, ms, sched, (s + 1) as nat) <= i32::MAX,
                conflicts >= 0,
                conflicts as nat == schedule_count(kind, ms, sched, s as nat) + slot_count(
                    kind,
                    ms,
                    sl,
                    i as nat,
                ),
            decreases slot.len() - i,
        {
            proof {
                lemma_slot_mono(kind, ms, sl, (i + 1) as nat, sl.len());
            }
            let mut j: usize = i + 1;
            while j < slot.len()
                invariant
                    s < schedule@.len(),
                    sl == slot@,
                    sl == sched[s as int],
                    sched == slots(schedule@),
                    ms == all_sessions@,
                    i < sl.len(),
                    i + 1 <= j <= sl.len(),
                    schedule_count(kind, ms, sched, (s + 1) as nat) <= i32::MAX,
                    slot_count(kind, ms, sl, (i + 1) as nat) <= slot_count(kind, ms, sl, sl.len()),
                    conflicts >= 0,
                conflicts as nat == schedule_count(kind, ms, sched, s as nat) + slot_count(
                        kind,
                        ms,
                        sl,
                        i as nat,
                    ) + row_count(kind, ms, sl, i as nat, j as nat),
                decreases slot.len() - j,
            {
                let a = slot[i];
                let b = slot[j];
                assert(row_count(kind, ms, sl, i as nat, (j + 1) as nat) == row_count(
                    kind,
                    ms,
                    sl,
                    i as nat,
                    j as nat,
                ) + if pair_clash(kind, ms, a, b) {
                    1nat
                } else {
                    0nat
                });
                if a < all_sessions.len() && b < all_sessions.len() {
                    if pair_has_clash(kind, &all_sessions[a], &all_sessions[b]) {
                        proof {
                            lemma_row_mono(kind, ms, sl, i as nat, (j + 1) as nat, sl.len());
                        }
                        conflicts = conflicts + 1;
                    }
                }
                j = j + 1;
            }
            i = i + 1;
        }
        s = s + 1;
    }
    conflicts
}

// ===========================================================================
// Entries of a schedule
// ===========================================================================

/// The entries of the first `end` slots, in slot order and room order:
/// (slot index, room index, minisymposium index).
pub open spec fn flat_from(sched: Seq<Seq<usize>>, end: nat) -> Seq<(usize, usize, usize)>
    decreases end,
{
    if end == 0 {
        Seq::empty()
    } else {
        flat_from(sched, (end - 1) as nat) + Seq::new(
            sched[end - 1].len(),
            |r: int| ((end - 1) as usize, r as usize, sched[end - 1][r]),
        )
    }
}

/// All entries of a schedule, slot by slot and room by room.
pub open spec fn flat(sched: Seq<Seq<usize>>) -> Seq<(usize, usize, usize)> {
    flat_from(sched, sched.len())
}

pub proof fn lemma_flat_len(sched: Seq<Seq<usize>>, end: nat)
    requires
        end <= sched.len(),
    ensures
        flat_from(sched, end).len() == entries(sched, end),
    decreases end,
{
    if end > 0 {
        lemma_flat_len(sched, (end - 1) as nat);
    }
}

/// The entries of a schedule, slot by slot and room by room.
pub fn schedule_entries(schedule: &Vec<Vec<usize>>) -> (r: Vec<(usize, usize, usize)>)
    ensures
        r@ == flat(slots(schedule@)),
{
    let ghost sched = slots(schedule@);
    let mut r: Vec<(usize, usize, usize)> = Vec::new();
    let mut s: usize = 0;
    while s < schedule.len()
        invariant
            s <= schedule@.len(),
            sched == slots(schedule@),
            r@ == flat_from(sched, s as nat),
        decreases schedule.len() - s,
    {
        let ghost before = r@.len();
        let ghost fl = flat_from(sched, (s + 1) as nat);
        assert(fl.take(before as int) =~= r@);
        assert(sched[s as int] == schedule@[s as int]@);
        let mut room: usize = 0;
        while room < schedule[s].len()
            invariant
                s < schedule@.len(),
                room <= schedule@[s as int]@.len(),
                sched == slots(schedule@),
                sched[s as int] == schedule@[s as int]@,
                fl == flat_from(sched, (s + 1) as nat),
                before == flat_from(sched, s as nat).len(),
                r@ == fl.take((before + room) as int),
            decreases schedule@[s as int]@.len() - room,
        {
            r.push((s, room, schedule[s][room]));
            room = room + 1;
            assert(r@ =~= fl.take((before + room) as int));
        }
        assert(r@ =~= fl);
        s = s + 1;
    }
    r
}

// ===========================================================================
// Counting pairs of entries
// ===========================================================================

/// The number of `j` with `i < j < end` such that `p(i, j)`.
pub open spec fn row_pairs(p: spec_fn(int, int) -> bool, i: nat, end: nat) -> nat
    decreases end,
{
    if end <= i + 1 {
        0
    } else {
        row_pairs(p, i, (end - 1) as nat) + if p(i as int, end - 1) {
            1nat
        } else {
            0nat
        }
    }
}

/// The number of pairs `i < j < n` with `i < end` such that `p(i, j)`.
pub open spec fn pairs_upto(p: spec_fn(int, int) -> bool, n: nat, end: nat) -> nat
    decreases end,
{
    if end == 0 {
        0
    } else {
        pairs_upto(p, n, (end - 1) as nat) + row_pairs(p, (end - 1) as nat, n)
    }
}

proof fn lemma_row_pairs_bound(p: spec_fn(int, int) -> bool, i: nat, end: nat)
    ensures
        end > i ==> row_pairs(p, i, end) <= end - i - 1,
    decreases end,
{
    if end > i + 1 {
        lemma_row_pairs_bound(p, i, (end - 1) as nat);
    }
}

pub(crate) proof fn lemma_row_pairs_mono(p: spec_fn(int, int) -> bool, i: nat, e1: nat, e2: nat)
    requires
        e1 <= e2,
    ensures
        row_pairs(p, i, e1) <= row_pairs(p, i, e2),
    decreases e2,
{
    if e1 < e2 {
        lemma_row_pairs_mono(p, i, e1, (e2 - 1) as nat);
    }
}

proof fn lemma_pairs_bound(p: spec_fn(int, int) -> bool, n: nat, end: nat)
    requires
        end <= n,
    ensures
        pairs_upto(p, n, end) + tri((n - end) as nat) <= tri(n),
    decreases end,
{
    if end > 0 {
        lemma_pairs_bound(p, n, (end - 1) as nat);
        lemma_row_pairs_bound(p, (end - 1) as nat, n);
        assert(tri((n - end + 1) as nat) == (n - end) + tri((n - end) as nat));
    }
}

pub(crate) proof fn lemma_pairs_mono(p: spec_fn(int, int) -> bool, n: nat, e1: nat, e2: nat)
    requires
        e1 <= e2,
    ensures
        pairs_upto(p, n, e1) <= pairs_upto(p, n, e2),
    decreases e2,
{
    if e1 < e2 {
        lemma_pairs_mono(p, n, e1, (e2 - 1) as nat);
    }
}

// ===========================================================================
// Series conflicts
// ===========================================================================

/// The series key of a minisymposium, as characters.
pub open spec fn key_of(m: Minisymposium) -> Option<Seq<char>> {
    match m.series_key {
        Some(k) => Some(k@),
        None => None,
    }
}

/// The name of the period of time slot `idx`.
pub open spec fn period_name(idx: nat) -> Seq<char> {
    if idx == 0 {
        "TUE First Period"@
    } else if idx == 1 {
        "TUE Second Period"@
    } else if idx == 2 {
        "WED First Period"@
    } else if idx == 3 {
        "WED Second Period"@
    } else if idx == 4 {
        "THU First Period"@
    } else if idx == 5 {
        "THU Second Period"@
    } else if idx == 6 {
        "FRI First Period"@
    } else if idx == 7 {
        "FRI Second Period"@
    } else {
        "Unknown"@
    }
}

/// The name of the period of time slot `idx` (`"Unknown"` past the eighth).
pub fn period_name_of(idx: usize) -> (r: &'static str)
    ensures
        r@ == period_name(idx as nat),
{
    if idx == 0 {
        "TUE First Period"
    } else if idx == 1 {
        "TUE Second Period"
    } else if idx == 2 {
        "WED First Period"
    } else if idx == 3 {
        "WED Second Period"
    } else if idx == 4 {
        "THU First Period"
    } else if idx == 5 {
        "THU Second Period"
    } else if idx == 6 {
        "FRI First Period"
    } else if idx == 7 {
        "FRI Second Period"
    } else {
        "Unknown"
    }
}

/// Entries `a` and `b` hold minisymposia with the same series key whose
/// titles and periods make a back-to-back conflict.
pub open spec fn entry_back_clash(ms: Seq<Minisymposium>, fl: Seq<(usize, usize, usize)>, a: int, b: int) -> bool {
    let x = fl[a];
    let y = fl[b];
    &&& x.2 < ms.len()
    &&& y.2 < ms.len()
    &&& key_of(ms[x.2 as int]) is Some
    &&& key_of(ms[x.2 as int]) == key_of(ms[y.2 as int])
    &&& series_back_to_back_clash(
        ms[x.2 as int].title@,
        period_name(x.0 as nat),
        ms[y.2 as int].title@,
        period_name(y.0 as nat),
    )
}

/// The number of pairs of entries of the same series that are consecutive
/// parts held in parallel or in periods that are not adjacent.
pub open spec fn series_back_conflicts(ms: Seq<Minisymposium>, sched: Seq<Seq<usize>>) -> nat {
    let fl = flat(sched);
    pairs_upto(|a: int, b: int| entry_back_clash(ms, fl, a, b), fl.len(), fl.len())
}

/// Whether the series keys of two minisymposia are both present and equal.
pub fn same_key(a: &Minisymposium, b: &Minisymposium) -> (r: bool)
    ensures
        r == (key_of(*a) is Some && key_of(*a) == key_of(*b)),
{
    match (&a.series_key, &b.series_key) {
        (Some(k1), Some(k2)) => *k1 == *k2,
        _ => false,
    }
}

/// The number of series back-to-back conflicts of `schedule`.
pub fn count_series_back_conflicts(schedule: &Vec<Vec<usize>>, all_sessions: &[Minisymposium]) -> (r:
    i32)
    requires
        counts_fit(slots(schedule@)),
    ensures
        r >= 0,
        r as nat == series_back_conflicts(all_sessions@, slots(schedule@)),
{
    let ghost sched = slots(schedule@);
    let ghost ms = all_sessions@;
    let fl = schedule_entries(schedule);
    let ghost f = flat(sched);
    let ghost p = |a: int, b: int| entry_back_clash(ms, f, a, b);
    let n = fl.len();
    proof {
        lemma_flat_len(sched, sched.len());
        lemma_pairs_bound(p, n as nat, n as nat);
    }
    let mut conflicts: i32 = 0;
    let mut i: usize = 0;
    while i < n
        invariant
            n == fl@.len(),
            n == f.len(),
            i <= n,
            ms == all_sessions@,
            p == (|a: int, b: int| entry_back_clash(ms, f, a, b)),
            fl@ == f,
            pairs_upto(p, n as nat, n as nat) <= i32::MAX,
            conflicts >= 0,
            conflicts as nat == pairs_upto(p, n as nat, i as nat),
        decreases n - i,
    {
        proof {
            lemma_pairs_mono(p, n as nat, (i + 1) as nat, n as nat);
        }
        let mut j: usize = i + 1;
        while j < n
            invariant
                n == fl@.len(),
                n == f.len(),
                i < n,
                i + 1 <= j <= n,
                ms == all_sessions@,
                p == (|a: int, b: int| entry_back_clash(ms, f, a, b)),
                fl@ == f,
                pairs_upto(p, n as nat, (i + 1) as nat) <= i32::MAX,
                conflicts >= 0,
                conflicts as nat == pairs_upto(p, n as nat, i as nat) + row_pairs(
                    p,
                    i as nat,
                    j as nat,
                ),
            decreases n - j,
        {
            let (t1, _r1, m1) = fl[i];
            let (t2, _r2, m2) = fl[j];
            let ghost e1 = fl@[i as int];
            let ghost e2 = fl@[j as int];
            let mut hit = false;
            if m1 < all_sessions.len() && m2 < all_sessions.len() {
                if same_key(&all_sessions[m1], &all_sessions[m2]) {
                    hit = has_series_back_to_back_conflict(
                        all_sessions[m1].title.as_str(),
                        period_name_of(t1),
                        all_sessions[m2].title.as_str(),
                        period_name_of(t2),
                    );
                }
            }
            assert(hit == p(i as int, j as int));
            if hit {
                proof {
                    lemma_row_pairs_mono(p, i as nat, (j + 1) as nat, n as nat);
                }
                conflicts = conflicts + 1;
            }
            j = j + 1;
        }
        i = i + 1;
    }
    conflicts
}

/// Both entries hold minisymposia (valid indices) with the same series key.
pub open spec fn same_series_entry(ms: Seq<Minisymposium>, fl: Seq<(usize, usize, usize)>, a: int, b: int) -> bool {
    fl[a].2 < ms.len() && fl[b].2 < ms.len() && key_of(ms[fl[b].2 as int]) == key_of(
        ms[fl[a].2 as int],
    )
}

/// Entry `a` is the first entry of its series, and some entry of the same
/// series is in another room: each series spread over several rooms is
/// counted once, at its first entry.
pub open spec fn first_of_split_series(ms: Seq<Minisymposium>, fl: Seq<(usize, usize, usize)>, a: int) -> bool {
    &&& fl[a].2 < ms.len()
    &&& key_of(ms[fl[a].2 as int]) is Some
    &&& forall|b: int| 0 <= b < a ==> !#[trigger] same_series_entry(ms, fl, a, b)
    &&& exists|b: int| 0 <= b < fl.len() && #[trigger] same_series_entry(ms, fl, a, b) && fl[b].1 != fl[a].1
}

/// The number of indices `a < end` with `q(a)`.
pub open spec fn count_where(q: spec_fn(int) -> bool, end: nat) -> nat
    decreases end,
{
    if end == 0 {
        0
    } else {
        count_where(q, (end - 1) as nat) + if q(end - 1) {
            1nat
        } else {
            0nat
        }
    }
}

proof fn lemma_count_where_bound(q: spec_fn(int) -> bool, end: nat)
    ensures
        count_where(q, end) <= end,
    decreases end,
{
    if end > 0 {
        lemma_count_where_bound(q, (end - 1) as nat);
    }
}

proof fn lemma_tri_at_least(n: nat)
    ensures
        n <= 2 || n <= tri(n),
    decreases n,
{
    if n > 2 {
        lemma_tri_at_least((n - 1) as nat);
        assert(tri((n - 1) as nat) >= 1) by {
            assert(tri((n - 1) as nat) == (n - 2) + tri((n - 2) as nat));
        }
    }
}

/// The number of series whose parts are held in more than one room.
pub open spec fn series_room_conflicts(ms: Seq<Minisymposium>, sched: Seq<Seq<usize>>) -> nat {
    let fl = flat(sched);
    count_where(|a: int| first_of_split_series(ms, fl, a), fl.len())
}

/// The number of series of `schedule` whose parts are in more than one room.
pub fn count_series_room_conflicts(schedule: &Vec<Vec<usize>>, all_sessions: &[Minisymposium]) -> (r:
    i32)
    requires
        counts_fit(slots(schedule@)),
    ensures
        r >= 0,
        r as nat == series_room_conflicts(all_sessions@, slots(schedule@)),
{
    let ghost sched = slots(schedule@);
    let ghost ms = all_sessions@;
    let fl = schedule_entries(schedule);
    let ghost f = flat(sched);
    let ghost q = |a: int| first_of_split_series(ms, f, a);
    let n = fl.len();
    proof {
        lemma_flat_len(sched, sched.len());
        lemma_tri_at_least(n as nat);
    }
    let mut conflicts: i32 = 0;
    let mut a: usize = 0;
    while a < n
        invariant
            n == fl@.len(),
            n == f.len(),
            n <= i32::MAX,
            a <= n,
            ms == all_sessions@,
            q == (|a: int| first_of_split_series(ms, f, a)),
            fl@ == f,
            conflicts >= 0,
            conflicts as nat == count_where(q, a as nat),
        decreases n - a,
    {
        proof {
            lemma_count_where_bound(q, a as nat);
        }
        let (_ta, ra, ma) = fl[a];
        let mut hit = false;
        if ma < all_sessions.len() && all_sessions[ma].series_key.is_some() {
            let mut first = true;
            let mut b: usize = 0;
            while b < a
                invariant
                    n == fl@.len(),
                    n == f.len(),
                    b <= a < n,
                    ma < ms.len(),
                    ma == f[a as int].2,
                    ms == all_sessions@,
                    fl@ == f,
                    first == forall|c: int| 0 <= c < b ==> !#[trigger] same_series_entry(ms, f, a as int, c),
                decreases a - b,
            {
                let (_tb, _rb, mb) = fl[b];
                if mb < all_sessions.len() {
                    let same = match (&all_sessions[ma].series_key, &all_sessions[mb].series_key) {
                        (Some(k1), Some(k2)) => *k1 == *k2,
                        (None, None) => true,
                        _ => false,
                    };
                    assert(same == same_series_entry(ms, f, a as int, b as int));
                    if same {
                        first = false;
                    }
                } else {
                    assert(!same_series_entry(ms, f, a as int, b as int));
                }
                b = b + 1;
            }
            if first {
                let mut split = false;
                let mut c: usize = 0;
                while c < n
                    invariant
                        n == fl@.len(),
                        n == f.len(),
                        c <= n,
                        a < n,
                        ma < ms.len(),
                        ma == f[a as int].2,
                        ra == f[a as int].1,
                        ms == all_sessions@,
                        fl@ == f,
                        split == exists|d: int|
                            0 <= d < c && #[trigger] same_series_entry(ms, f, a as int, d) && f[d].1
                                != f[a as int].1,
                    decreases n - c,
                {
                    let (_tc, rc, mc) = fl[c];
                    if mc < all_sessions.len() && rc != ra {
                        let same = match (&all_sessions[ma].series_key, &all_sessions[mc].series_key) {
                            (Some(k1), Some(k2)) => *k1 == *k2,
                            (None, None) => true,
                            _ => false,
                        };
                        assert(same == same_series_entry(ms, f, a as int, c as int));
                        if same {
                            split = true;
                        }
                    }
                    c = c + 1;
                }
                hit = split;
            }
        }
        assert(hit == q(a as int));
        if hit {
            conflicts = conflicts + 1;
        }
        a = a + 1;
    }
    conflicts
}

// ===========================================================================
// Counts of every conflict type
// ===========================================================================

/// The number of conflicts of type `kind` in a schedule.
pub open spec fn conflicts_of(kind: ConflictType, ms: Seq<Minisymposium>, sched: Seq<Seq<usize>>) -> nat {
    match kind {
        ConflictType::SeriesSameRoom => series_room_conflicts(ms, sched),
        ConflictType::SeriesBackToBack => series_back_conflicts(ms, sched),
        _ => pairwise_conflicts(kind, ms, sched),
    }
}

/// The number of conflicts of type `conflict_type` in `schedule`.
pub fn calculate_conflicts(
    conflict_type: ConflictType,
    schedule: &Vec<Vec<usize>>,
    all_sessions: &[Minisymposium],
) -> (r: i32)
    requires
        counts_fit(slots(schedule@)),
    ensures
        r >= 0,
        r as nat == conflicts_of(conflict_type, all_sessions@, slots(schedule@)),
{
    match conflict_type {
        ConflictType::SeriesSameRoom => count_series_room_conflicts(schedule, all_sessions),
        ConflictType::SeriesBackToBack => count_series_back_conflicts(schedule, all_sessions),
        _ => count_pairwise_conflicts(conflict_type, schedule, all_sessions),
    }
}

/// The counts hold the number of conflicts of every type in the schedule.
pub open spec fn counts_match(c: ConflictCounts, ms: Seq<Minisymposium>, sched: Seq<Seq<usize>>) -> bool {
    forall|t: ConflictType| #[trigger] count_of(c, t) as int == conflicts_of(t, ms, sched) as int
}

/// The counts of all five conflict types in `schedule`.
pub fn calculate_all_conflicts(schedule: &Vec<Vec<usize>>, all_sessions: &[Minisymposium]) -> (r:
    ConflictCounts)
    requires
        counts_fit(slots(schedule@)),
    ensures
        counts_match(r, all_sessions@, slots(schedule@)),
{
    let r = ConflictCounts {
        classification: calculate_conflicts(ConflictType::Classification, schedule, all_sessions),
        speaker_organizer: calculate_conflicts(ConflictType::SpeakerOrganizer, schedule, all_sessions),
        personal_classification: calculate_conflicts(
            ConflictType::PersonalClassification,
            schedule,
            all_sessions,
        ),
        series_same_room: calculate_conflicts(ConflictType::SeriesSameRoom, schedule, all_sessions),
        series_back_to_back: calculate_conflicts(
            ConflictType::SeriesBackToBack,
            schedule,
            all_sessions,
        ),
    };
    assert forall|t: ConflictType|
        #[trigger] count_of(r, t) as int == conflicts_of(t, all_sessions@, slots(schedule@)) as int by {
        match t {
            ConflictType::Classification => {},
            ConflictType::SpeakerOrganizer => {},
            ConflictType::PersonalClassification => {},
            ConflictType::SeriesSameRoom => {},
            ConflictType::SeriesBackToBack => {},
        }
    }
    r
}

/// The counts of the optimisation target `current_type` and of the protected
/// types, computed only for those types; every other count is zero.
pub fn calculate_selective_conflicts(
    schedule: &Vec<Vec<usize>>,
    all_sessions: &[Minisymposium],
    current_type: ConflictType,
    protected_types: &[ConflictType],
) -> (r: ConflictCounts)
    requires
        counts_fit(slots(schedule@)),
    ensures
        forall|t: ConflictType|
            (t == current_type || protected_types@.contains(t)) ==> #[trigger] count_of(r, t) as int
                == conflicts_of(t, all_sessions@, slots(schedule@)) as int,
        forall|t: ConflictType|
            (t != current_type && !protected_types@.contains(t)) ==> #[trigger] count_of(r, t) == 0,
{
    let mut conflicts = ConflictCounts::default();
    let c = calculate_conflicts(current_type, schedule, all_sessions);
    conflicts.set(current_type, c);
    let mut i: usize = 0;
    while i < protected_types.len()
        invariant
            i <= protected_types@.len(),
            counts_fit(slots(schedule@)),
            forall|t: ConflictType|
                (t == current_type || protected_types@.take(i as int).contains(t)) ==> #[trigger] count_of(
                    conflicts,
                    t,
                ) as int == conflicts_of(t, all_sessions@, slots(schedule@)) as int,
            forall|t: ConflictType|
                (t != current_type && !protected_types@.take(i as int).contains(t)) ==> #[trigger] count_of(
                    conflicts,
                    t,
                ) == 0,
        decreases protected_types.len() - i,
    {
        let pt = protected_types[i];
        let ghost before = protected_types@.take(i as int);
        assert(protected_types@.take(i + 1) =~= before.push(pt));
        assert forall|t: ConflictType| #[trigger] before.push(pt).contains(t) <==> (before.contains(t) || t == pt) by {
            if before.contains(t) {
                let k = choose|k: int| 0 <= k < before.len() && before[k] == t;
                assert(before.push(pt)[k] == t);
            }
            if t == pt {
                assert(before.push(pt)[before.len() as int] == t);
            }
            if before.push(pt).contains(t) {
                let k = choose|k: int| 0 <= k < before.len() + 1 && before.push(pt)[k] == t;
                if k < before.len() {
                    assert(before[k] == t);
                }
            }
        }
        if pt != current_type {
            let c = calculate_conflicts(pt, schedule, all_sessions);
            conflicts.set(pt, c);
        }
        i = i + 1;
    }
    assert(protected_types@.take(protected_types.len() as int) =~= protected_types@);
    conflicts
}

/// The new count of a protected type exceeds the old one: at all in strict
/// mode, by more than 2 in flexible mode.
pub open spec fn breaks_protection(new_count: i32, old_count: i32, strict: bool) -> bool {
    if strict {
        new_count > old_count
    } else {
        new_count > old_count + 2
    }
}

/// A change from `old` to `new` counts is rejected when it raises the count of
/// some protected type beyond what the mode allows.
pub open spec fn violates_protection(
    new: ConflictCounts,
    old: ConflictCounts,
    protected_types: Seq<ConflictType>,
    strict: bool,
) -> bool {
    exists|i: int|
        0 <= i < protected_types.len() && breaks_protection(
            count_of(new, #[trigger] protected_types[i]),
            count_of(old, protected_types[i]),
            strict,
        )
}

/// Whether moving from `old_conflicts` to `new_conflicts` violates a
/// protected (higher-priority) conflict type.
pub fn violates_protected_constraints(
    new_conflicts: &ConflictCounts,
    old_conflicts: &ConflictCounts,
    protected_types: &[ConflictType],
    strict: bool,
) -> (r: bool)
    ensures
        r == violates_protection(*new_conflicts, *old_conflicts, protected_types@, strict),
{
    let mut i: usize = 0;
    while i < protected_types.len()
        invariant
            i <= protected_types@.len(),
            forall|k: int|
                0 <= k < i ==> !breaks_protection(
                    count_of(*new_conflicts, #[trigger] protected_types@[k]),
                    count_of(*old_conflicts, protected_types@[k]),
                    strict,
                ),
        decreases protected_types.len() - i,
    {
        let conflict_type = protected_types[i];
        let old_count = old_conflicts.get(conflict_type);
        let new_count = new_conflicts.get(conflict_type);
        if strict {
            if new_count > old_count {
                return true;
            }
        } else {
            if new_count as i64 > old_count as i64 + 2 {
                return true;
            }
        }
        i = i + 1;
    }
    false
}

} // verus!
