//! The initial schedule: minisymposia ordered from hardest to easiest to
//! place, then poured into the slots room by room.
use vstd::prelude::*;
use crate::model::{Minisymposium, SchedulerConfig, slots};
use crate::moves::{occ_upto, occurrences};
use vstd::set_lib::{lemma_int_range, lemma_subset_equality, set_int_range};

verus! {

/// How hard a minisymposium is to place: ten per classification code, two per
/// organizer or speaker, and five more for a part of a series.
pub open spec fn difficulty(m: Minisymposium) -> int {
    m.classification@.len() * 10 + (m.organizers@.len() + m.speakers@.len()) * 2 + if m.series_key is Some {
        5int
    } else {
        0int
    }
}

/// The difficulty score of a session (higher is harder to place).
pub fn calculate_session_difficulty(session: &Minisymposium) -> (r: usize)
    requires
        difficulty(*session) <= usize::MAX,
    ensures
        r as int == difficulty(*session),
{
    let num_classifications = session.classification.len();
    let num_people = session.organizers.len() + session.speakers.len();
    let is_series = session.series_key.is_some();
    (num_classifications * 10) + (num_people * 2) + (if is_series {
        5
    } else {
        0
    })
}

/// The difficulty of each minisymposium.
pub open spec fn difficulties(ms: Seq<Minisymposium>) -> Seq<usize> {
    ms.map_values(|m: Minisymposium| difficulty(m) as usize)
}

/// `order` lists indices below `diffs.len()`, each at most once, hardest
/// first, and among equally hard ones in increasing index order.
pub open spec fn sorted_by_difficulty(order: Seq<usize>, diffs: Seq<usize>, n: nat) -> bool {
    &&& order.len() == n
    &&& forall|k: int| 0 <= k < order.len() ==> #[trigger] order[k] < n
    &&& forall|k: int, l: int| 0 <= k < l < order.len() ==> order[k] != order[l]
    &&& forall|k: int, l: int|
        0 <= k < l < order.len() ==> diffs[order[k] as int] > diffs[order[l] as int] || (diffs[order[k] as int]
            == diffs[order[l] as int] && order[k] < order[l])
}

/// The indices `0..diffs.len()` sorted by decreasing difficulty; equal
/// difficulties keep their index order.
pub fn difficulty_order(diffs: &Vec<usize>) -> (order: Vec<usize>)
    ensures
        sorted_by_difficulty(order@, diffs@, diffs@.len()),
{
    let mut order: Vec<usize> = Vec::new();
    let mut i: usize = 0;
    while i < diffs.len()
        invariant
            i <= diffs@.len(),
            sorted_by_difficulty(order@, diffs@, i as nat),
        decreases diffs.len() - i,
    {
        let d = diffs[i];
        let mut p: usize = 0;
        while p < order.len() && diffs[order[p]] >= d
            invariant
                p <= order@.len(),
                order@.len() == i,
                i < diffs@.len(),
                d == diffs@[i as int],
                forall|k: int| 0 <= k < order@.len() ==> #[trigger] order@[k] < i,
                forall|k: int| 0 <= k < p ==> diffs@[#[trigger] order@[k] as int] >= d,
            decreases order.len() - p,
        {
            p = p + 1;
        }
        let ghost old_order = order@;
        proof {
            if p < old_order.len() {
                assert(diffs@[old_order[p as int] as int] < d);
                assert forall|k: int| p <= k < old_order.len() implies diffs@[#[trigger] old_order[k] as int] < d by {
                    if k > p {
                        assert(diffs@[old_order[p as int] as int] >= diffs@[old_order[k] as int]);
                    }
                }
            }
        }
        order.insert(p, i);
        assert(order@ =~= old_order.insert(p as int, i));
        proof {
            let o = order@;
            assert forall|k: int| 0 <= k < o.len() implies #[trigger] o[k] < i + 1 by {
                if k < p {
                    assert(o[k] == old_order[k]);
                } else if k > p {
                    assert(o[k] == old_order[k - 1]);
                }
            }
            assert forall|k: int, l: int| 0 <= k < l < o.len() implies o[k] != o[l] by {
                if k < p && l < p {
                } else if k < p && l == p {
                    assert(old_order[k] < i);
                } else if k < p && l > p {
                    assert(o[l] == old_order[l - 1]);
                } else if k == p {
                    assert(o[l] == old_order[l - 1]);
                    assert(old_order[l - 1] < i);
                } else {
                    assert(o[k] == old_order[k - 1] && o[l] == old_order[l - 1]);
                }
            }
            assert forall|k: int, l: int| 0 <= k < l < o.len() implies diffs@[o[k] as int] > diffs@[o[l] as int]
                || (diffs@[o[k] as int] == diffs@[o[l] as int] && o[k] < o[l]) by {
                if k < p && l < p {
                } else if k < p && l == p {
                    assert(diffs@[old_order[k] as int] >= d);
                    assert(old_order[k] < i);
                } else if k < p && l > p {
                    assert(o[l] == old_order[l - 1]);
                } else if k == p {
                    assert(o[l] == old_order[l - 1]);
                    assert(diffs@[old_order[l - 1] as int] < d);
                } else {
                    assert(o[k] == old_order[k - 1] && o[l] == old_order[l - 1]);
                }
            }
        }
        i = i + 1;
    }
    order
}

/// The slots of the initial schedule: with `rooms > 0`, slot `s` holds the
/// entries of `order` from `s * rooms` to `(s + 1) * rooms`, of the first
/// `min(n, slots * rooms)`; with no rooms, slot `s > 0` holds the single
/// entry `s - 1` and slot 0 is empty.
pub open spec fn initial_slot(order: Seq<usize>, num_slots: nat, rooms: nat, s: int) -> Seq<usize> {
    if rooms > 0 {
        let placed = if order.len() < num_slots * rooms {
            order.len() as int
        } else {
            (num_slots * rooms) as int
        };
        let lo = if s * rooms < placed {
            s * rooms
        } else {
            placed
        };
        let hi = if (s + 1) * rooms < placed {
            (s + 1) * rooms
        } else {
            placed
        };
        order.subrange(lo, hi)
    } else if 1 <= s && s - 1 < order.len() {
        seq![order[s - 1]]
    } else {
        Seq::empty()
    }
}


/// How many entries of the order the initial layout places:
/// `min(n, num_slots * rooms)`.
pub open spec fn placed_count(n: nat, num_slots: nat, rooms: nat) -> int {
    if n < num_slots * rooms {
        n as int
    } else {
        (num_slots * rooms) as int
    }
}

/// The first `t` slots of the layout hold, together, the first
/// `min(t * rooms, placed)` entries of the order.
proof fn lemma_initial_occ(o: Seq<usize>, num_slots: nat, rooms: nat, sch: Seq<Seq<usize>>, x: usize, t: nat)
    requires
        rooms > 0,
        sch.len() == num_slots,
        t <= num_slots,
        forall|s: int| 0 <= s < num_slots ==> #[trigger] sch[s] == initial_slot(o, num_slots, rooms, s),
    ensures
        ({
            let p = placed_count(o.len(), num_slots, rooms);
            let e = if t * rooms < p {
                (t * rooms) as int
            } else {
                p
            };
            occ_upto(sch, x, t) == o.take(e).to_multiset().count(x)
        }),
    decreases t,
{
    broadcast use vstd::seq_lib::lemma_multiset_commutative;
    broadcast use vstd::multiset::group_multiset_axioms;

    let p = placed_count(o.len(), num_slots, rooms);
    if t == 0 {
        broadcast use vstd::seq_lib::group_to_multiset_ensures;

        assert(o.take(0) =~= Seq::<usize>::empty());
        assert(o.take(0).to_multiset().len() == 0);
    } else {
        lemma_initial_occ(o, num_slots, rooms, sch, x, (t - 1) as nat);
        let s = t - 1;
        assert((s + 1) * rooms == t * rooms);
        assert(s * rooms <= t * rooms) by (nonlinear_arith)
            requires
                s <= t,
        ;
        let a = if s * rooms < p {
            s * rooms
        } else {
            p
        };
        let b = if t * rooms < p {
            (t * rooms) as int
        } else {
            p
        };
        assert(a <= b);
        assert(b <= o.len());
        assert(sch[s] == initial_slot(o, num_slots, rooms, s));
        assert(sch[s] == o.subrange(a, b));
        assert(o.take(b) =~= o.take(a) + o.subrange(a, b));
        assert(occ_upto(sch, x, t) == occ_upto(sch, x, s as nat) + sch[s].to_multiset().count(x));
        assert(o.take(b).to_multiset().count(x) == o.take(a).to_multiset().count(x) + o.subrange(a, b).to_multiset().count(x));
    }
}

/// An order that lists each of `0..n` once holds every `x < n` exactly once,
/// and nothing else.
proof fn lemma_order_counts(o: Seq<usize>, n: nat)
    requires
        o.len() == n,
        forall|k: int| 0 <= k < o.len() ==> #[trigger] o[k] < n,
        forall|k: int, l: int| 0 <= k < l < o.len() ==> o[k] != o[l],
    ensures
        forall|x: usize| x < n ==> #[trigger] o.to_multiset().count(x) == 1,
        forall|x: usize| #[trigger] o.to_multiset().count(x) <= 1,
{
    broadcast use vstd::seq_lib::to_multiset_contains;

    assert(o.no_duplicates());
    o.lemma_multiset_has_no_duplicates();
    let f = |u: usize| u as int;
    let m = o.map_values(f);
    o.lemma_no_duplicates_injective(f);
    m.unique_seq_to_set();
    lemma_int_range(0, n as int);
    assert(m.to_set().subset_of(set_int_range(0, n as int))) by {
        assert forall|v: int| m.to_set().contains(v) implies set_int_range(0, n as int).contains(v) by {
            let k = choose|k: int| 0 <= k < m.len() && m[k] == v;
            assert(o[k] < n);
        }
    }
    lemma_subset_equality(m.to_set(), set_int_range(0, n as int));
    assert forall|x: usize| x < n implies #[trigger] o.to_multiset().count(x) == 1 by {
        assert(set_int_range(0, n as int).contains(x as int));
        assert(m.to_set().contains(x as int));
        let k = choose|k: int| 0 <= k < m.len() && m[k] == x as int;
        assert(o[k] == x);
        assert(o.contains(x));
    }
    assert forall|x: usize| #[trigger] o.to_multiset().count(x) <= 1 by {
        if o.to_multiset().count(x) > 0 {
            assert(o.to_multiset().contains(x));
        }
    }
}

/// What the layout holds: entries of the order only; with rooms, at most
/// `rooms` per slot, every entry at most once, and every one of `0..n` once
/// when all fit.
proof fn lemma_initial_layout(o: Seq<usize>, n: nat, num_slots: nat, rooms: nat, sch: Seq<Seq<usize>>)
    requires
        o.len() == n,
        forall|k: int| 0 <= k < o.len() ==> #[trigger] o[k] < n,
        forall|k: int, l: int| 0 <= k < l < o.len() ==> o[k] != o[l],
        sch.len() == num_slots,
        forall|s: int| 0 <= s < num_slots ==> #[trigger] sch[s] == initial_slot(o, num_slots, rooms, s),
    ensures
        forall|s: int, k: int| 0 <= s < sch.len() && 0 <= k < sch[s].len() ==> sch[s][k] < n,
        rooms > 0 ==> forall|s: int| 0 <= s < sch.len() ==> #[trigger] sch[s].len() <= rooms,
        rooms > 0 ==> forall|x: usize| #[trigger] occurrences(sch, x) <= 1,
        rooms > 0 && n <= num_slots * rooms ==> forall|x: usize| x < n ==> #[trigger] occurrences(sch, x) == 1,
{
    lemma_order_counts(o, n);
    assert forall|s: int, k: int| 0 <= s < sch.len() && 0 <= k < sch[s].len() implies sch[s][k] < n by {
        assert(sch[s] == initial_slot(o, num_slots, rooms, s));
        if rooms > 0 {
            assert((s + 1) * rooms == s * rooms + rooms) by (nonlinear_arith);
            let p = placed_count(n, num_slots, rooms);
            let lo = if s * rooms < p {
                s * rooms
            } else {
                p
            };
            assert(sch[s][k] == o[lo + k]);
        } else {
            assert(sch[s][k] == o[s - 1]);
        }
    }
    if rooms > 0 {
        assert forall|s: int| 0 <= s < sch.len() implies #[trigger] sch[s].len() <= rooms by {
            assert(sch[s] == initial_slot(o, num_slots, rooms, s));
            assert((s + 1) * rooms == s * rooms + rooms) by (nonlinear_arith);
        }
        let p = placed_count(n, num_slots, rooms);
        assert forall|x: usize| #[trigger] occurrences(sch, x) <= 1 by {
            lemma_initial_occ(o, num_slots, rooms, sch, x, num_slots);
            assert(num_slots * rooms >= p);
            let e = p;
            lemma_take_count_le(o, e, x);
        }
        if n <= num_slots * rooms {
            assert forall|x: usize| x < n implies #[trigger] occurrences(sch, x) == 1 by {
                lemma_initial_occ(o, num_slots, rooms, sch, x, num_slots);
                assert(o.take(n as int) =~= o);
            }
        }
    }
}

/// A prefix holds an entry at most as often as the whole sequence.
proof fn lemma_take_count_le(o: Seq<usize>, e: int, x: usize)
    requires
        0 <= e <= o.len(),
    ensures
        o.take(e).to_multiset().count(x) <= o.to_multiset().count(x),
{
    broadcast use vstd::seq_lib::lemma_multiset_commutative;
    broadcast use vstd::multiset::group_multiset_axioms;

    assert(o =~= o.take(e) + o.skip(e));
}

proof fn lemma_initial_slot_rooms(
    o: Seq<usize>,
    num_slots: nat,
    rooms: nat,
    idx: int,
    k: int,
    full: bool,
    t: int,
    slot_t: Seq<usize>,
    cur_len: nat,
)
    requires
        rooms > 0,
        0 <= idx < num_slots,
        0 <= t < num_slots,
        0 <= k <= o.len(),
        k == idx * rooms + cur_len,
        cur_len <= rooms,
        k == o.len() || (full && idx + 1 == num_slots && cur_len >= rooms),
        t < idx ==> slot_t == o.subrange(t * rooms, t * rooms + rooms),
        t == idx ==> slot_t == o.subrange(idx * rooms, k),
        t > idx ==> slot_t.len() == 0,
    ensures
        slot_t == initial_slot(o, num_slots, rooms, t),
{
    let placed = if o.len() < num_slots * rooms {
        o.len() as int
    } else {
        (num_slots * rooms) as int
    };
    assert(idx * rooms + rooms <= num_slots * rooms) by (nonlinear_arith)
        requires
            idx + 1 <= num_slots,
    ;
    if full && idx + 1 == num_slots {
        assert(idx * rooms + rooms == num_slots * rooms) by (nonlinear_arith)
            requires
                idx + 1 == num_slots,
        ;
    }
    assert(k == placed);
    if t < idx {
        assert(t * rooms + rooms <= idx * rooms) by (nonlinear_arith)
            requires
                t + 1 <= idx,
        ;
        assert((t + 1) * rooms == t * rooms + rooms) by (nonlinear_arith);
    } else if t == idx {
        assert((t + 1) * rooms == t * rooms + rooms) by (nonlinear_arith);
        if idx * rooms == placed {
            assert(slot_t =~= o.subrange(placed, placed));
        }
    } else {
        assert(t * rooms >= idx * rooms + rooms) by (nonlinear_arith)
            requires
                t >= idx + 1,
        ;
        assert((t + 1) * rooms >= t * rooms) by (nonlinear_arith);
        assert(slot_t =~= o.subrange(placed, placed));
    }
}

/// Builds the initial schedule: minisymposia are taken hardest first (see
/// `calculate_session_difficulty`) and placed room by room, slot by slot,
/// until the slots are full.
pub fn create_initial_schedule(sessions: &[Minisymposium], config: &SchedulerConfig) -> (r: Vec<Vec<usize>>)
    requires
        forall|i: int| 0 <= i < sessions@.len() ==> difficulty(#[trigger] sessions@[i]) <= usize::MAX,
        sessions@.len() > 0 ==> config.num_sessions > 0,
    ensures
        forall|s: int, k: int| 0 <= s < r@.len() && 0 <= k < r@[s]@.len() ==> r@[s]@[k] < sessions@.len(),
        config.num_rooms > 0 ==> forall|s: int| 0 <= s < r@.len() ==> #[trigger] r@[s]@.len() <= config.num_rooms,
        config.num_rooms > 0 ==> forall|x: usize| #[trigger] occurrences(slots(r@), x) <= 1,
        config.num_rooms > 0 && sessions@.len() <= config.num_sessions * config.num_rooms ==> forall|x: usize|
            x < sessions@.len() ==> #[trigger] occurrences(slots(r@), x) == 1,
        exists|order: Seq<usize>| {
            &&& #[trigger] sorted_by_difficulty(
                order,
                difficulties(sessions@),
                sessions@.len(),
            )
            &&& slots(r@).len() == config.num_sessions
            &&& forall|s: int| 0 <= s < config.num_sessions ==> #[trigger] slots(r@)[s] == initial_slot(
                order,
                config.num_sessions as nat,
                config.num_rooms as nat,
                s,
            )
        },
{
    let mut diffs: Vec<usize> = Vec::new();
    let mut i: usize = 0;
    while i < sessions.len()
        invariant
            i <= sessions@.len(),
            forall|j: int| 0 <= j < sessions@.len() ==> difficulty(#[trigger] sessions@[j]) <= usize::MAX,
            diffs@ == difficulties(sessions@.take(i as int)),
        decreases sessions.len() - i,
    {
        let d = calculate_session_difficulty(&sessions[i]);
        diffs.push(d);
        i = i + 1;
        assert(diffs@ =~= difficulties(sessions@.take(i as int)));
    }
    assert(sessions@.take(sessions@.len() as int) =~= sessions@);
    let order = difficulty_order(&diffs);
    let n = order.len();
    let num_slots = config.num_sessions;
    let rooms = config.num_rooms;
    let mut schedule: Vec<Vec<usize>> = Vec::new();
    let mut s: usize = 0;
    while s < num_slots
        invariant
            s <= num_slots,
            schedule@.len() == s,
            forall|t: int| 0 <= t < s ==> (#[trigger] schedule@[t])@.len() == 0,
        decreases num_slots - s,
    {
        schedule.push(Vec::new());
        s = s + 1;
    }
    let ghost o = order@;
    let mut session_idx: usize = 0;
    let mut k: usize = 0;
    let mut full = false;
    if num_slots > 0 {
        assert(o.subrange(0, 0) =~= schedule@[0]@);
        assert(0 * rooms == 0);
    }
    while k < n && !full
        invariant
            k <= n,
            n == o.len(),
            o == order@,
            num_slots == config.num_sessions,
            rooms == config.num_rooms,
            n > 0 ==> num_slots > 0,
            schedule@.len() == num_slots,
            session_idx < num_slots || (n == 0 && session_idx == 0 && num_slots == 0),
            full ==> session_idx + 1 == num_slots && schedule@[session_idx as int]@.len() >= rooms,
            rooms > 0 && session_idx < num_slots ==> {
                &&& k == session_idx * rooms + schedule@[session_idx as int]@.len()
                &&& schedule@[session_idx as int]@.len() <= rooms
                &&& forall|t: int| 0 <= t < session_idx ==> #[trigger] schedule@[t]@ == o.subrange(t * rooms, t * rooms + rooms)
                &&& schedule@[session_idx as int]@ == o.subrange(session_idx * rooms, k as int)
            },
            rooms == 0 ==> {
                &&& (k == 0 ==> session_idx == 0)
                &&& (k > 0 ==> session_idx == k)
                &&& (full ==> k > 0 || num_slots == 1)
                &&& forall|t: int| 1 <= t <= session_idx ==> #[trigger] schedule@[t]@ == seq![o[t - 1]]
                &&& (num_slots > 0 ==> schedule@[0]@.len() == 0)
            },
            forall|t: int| session_idx < t < num_slots ==> (#[trigger] schedule@[t])@.len() == 0,
        decreases n - k + if full { 0int } else { 1int },
    {
        let ms_idx = order[k];
        if schedule[session_idx].len() >= rooms {
            if session_idx + 1 >= num_slots {
                full = true;
            } else {
                if rooms > 0 {
                    assert((session_idx + 1) * rooms == session_idx * rooms + rooms) by (nonlinear_arith);
                }
                session_idx = session_idx + 1;
                schedule[session_idx].push(ms_idx);
                k = k + 1;
                proof {
                    if rooms > 0 {
                        assert(schedule@[session_idx as int]@ =~= o.subrange(session_idx * rooms, k as int));
                    }
                }
            }
        } else {
            schedule[session_idx].push(ms_idx);
            k = k + 1;
            proof {
                if rooms > 0 {
                    assert(schedule@[session_idx as int]@ =~= o.subrange(session_idx * rooms, k as int));
                }
            }
        }
    }
    proof {
        assert(diffs@ == difficulties(sessions@));
        let sch = slots(schedule@);
        assert forall|t: int| 0 <= t < num_slots implies #[trigger] sch[t] == initial_slot(
            o,
            num_slots as nat,
            rooms as nat,
            t,
        ) by {
            assert(sch[t] == schedule@[t]@);
            if rooms > 0 {
                lemma_initial_slot_rooms(o, num_slots as nat, rooms as nat, session_idx as int, k as int, full, t, schedule@[t]@, schedule@[session_idx as int]@.len());
            } else {
                if full && k == 0 {
                    assert(num_slots == 1);
                }
            }
        }
    }
    assert(sorted_by_difficulty(o, difficulties(sessions@), sessions@.len()));
    proof {
        let sch = slots(schedule@);
        lemma_initial_layout(o, sessions@.len(), num_slots as nat, rooms as nat, sch);
        assert forall|t: int| 0 <= t < schedule@.len() implies schedule@[t]@ == #[trigger] sch[t] by {}
        assert forall|t: int, k: int| 0 <= t < schedule@.len() && 0 <= k < schedule@[t]@.len() implies schedule@[t]@[k]
            < sessions@.len() by {
            assert(schedule@[t]@ == sch[t]);
        }
        if rooms > 0 {
            assert forall|t: int| 0 <= t < schedule@.len() implies #[trigger] schedule@[t]@.len() <= rooms by {
                assert(schedule@[t]@ == sch[t]);
            }
        }
    }
    schedule
}

} // verus!
