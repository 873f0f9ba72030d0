//! Why two of the analyzer's least numbers of conflicts are lower bounds.
//! Over at most eight periods, a notes keyword on `c` sessions puts
//! `ceil(c / 8)` of them in one period, and every pair of those is a
//! personal-classification conflict; a person in `n` sessions of one
//! period makes every pair of those a speaker/organizer conflict.
use vstd::prelude::*;
use crate::analysis::{
    ConflictType, SessionInfo, all_hits, count_in, distinct, distinct_upto, group_hits, keyword_min, keywords_min, keywords_upto,
    lemma_distinct_members, lemma_max_count_attained, max_count_upto, max_person_load, normalized_names, pair_conflicts,
    pair_hit, pairs_of, period_groups, period_groups_upto, period_members, person_min, first_in_period, row_hits,
    slot_names,
};
use crate::conflict_detection::normalize_spec;
use crate::counts::{lemma_tri_mono, lemma_tri_value, tri};
use crate::laws::{lemma_count_in_concat, lemma_count_in_push, lemma_name_count, lemma_normalized_nonempty};
use crate::text::has_substring;

verus! {

/// A notes keyword as the analyzer counts one: non-empty after
/// normalising, without the word `notes`.
pub open spec fn valid_keyword(kw: Seq<char>) -> bool {
    kw.len() > 0 && !has_substring(kw, "notes"@)
}

/// Session `x` of `sessions` has the notes keyword `kw`.
pub open spec fn has_keyword(sessions: Seq<SessionInfo>, x: usize, kw: Seq<char>) -> bool {
    normalize_spec(sessions[x as int].notes@) == kw
}

/// How many of the indices `m` name sessions with keyword `kw`.
pub open spec fn keyword_members(sessions: Seq<SessionInfo>, m: Seq<usize>, kw: Seq<char>) -> nat
    decreases m.len(),
{
    if m.len() == 0 {
        0
    } else {
        keyword_members(sessions, m.drop_last(), kw) + if has_keyword(sessions, m.last(), kw) {
            1nat
        } else {
            0nat
        }
    }
}

/// How many of the reported conflicts `h` have a first session with
/// keyword `kw`.
pub open spec fn keyword_hits(sessions: Seq<SessionInfo>, h: Seq<(Seq<char>, usize, usize)>, kw: Seq<char>) -> nat
    decreases h.len(),
{
    if h.len() == 0 {
        0
    } else {
        keyword_hits(sessions, h.drop_last(), kw) + if has_keyword(sessions, h.last().1, kw) {
            1nat
        } else {
            0nat
        }
    }
}

proof fn lemma_members_concat(sessions: Seq<SessionInfo>, a: Seq<usize>, b: Seq<usize>, kw: Seq<char>)
    ensures
        keyword_members(sessions, a + b, kw) == keyword_members(sessions, a, kw) + keyword_members(sessions, b, kw),
    decreases b.len(),
{
    if b.len() == 0 {
        assert(a + b =~= a);
    } else {
        lemma_members_concat(sessions, a, b.drop_last(), kw);
        assert((a + b).drop_last() =~= a + b.drop_last());
        assert((a + b).last() == b.last());
    }
}

proof fn lemma_hits_concat(
    sessions: Seq<SessionInfo>,
    a: Seq<(Seq<char>, usize, usize)>,
    b: Seq<(Seq<char>, usize, usize)>,
    kw: Seq<char>,
)
    ensures
        keyword_hits(sessions, a + b, kw) == keyword_hits(sessions, a, kw) + keyword_hits(sessions, b, kw),
    decreases b.len(),
{
    if b.len() == 0 {
        assert(a + b =~= a);
    } else {
        lemma_hits_concat(sessions, a, b.drop_last(), kw);
        assert((a + b).drop_last() =~= a + b.drop_last());
        assert((a + b).last() == b.last());
    }
}

/// The conflicts of member `i` with the members before `end` that have
/// keyword `kw`: all of those members when member `i` has it, none
/// otherwise.
proof fn lemma_row_keyword_hits(
    sessions: Seq<SessionInfo>,
    p: Seq<char>,
    m: Seq<usize>,
    i: int,
    end: nat,
    kw: Seq<char>,
)
    requires
        valid_keyword(kw),
        0 <= i < m.len(),
        end <= m.len(),
    ensures
        keyword_hits(sessions, row_hits(ConflictType::PersonalClassification, sessions, p, m, i, end), kw) == if has_keyword(
            sessions,
            m[i],
            kw,
        ) && i + 1 <= end {
            keyword_members(sessions, m.subrange(i + 1, end as int), kw)
        } else {
            0
        },
    decreases end,
{
    let kind = ConflictType::PersonalClassification;
    if end == 0 || end <= i + 1 {
        if i + 1 <= end {
            assert(m.subrange(i + 1, end as int) =~= Seq::<usize>::empty());
        }
    } else {
        lemma_row_keyword_hits(sessions, p, m, i, (end - 1) as nat, kw);
        let prev = row_hits(kind, sessions, p, m, i, (end - 1) as nat);
        assert(m.subrange(i + 1, end as int).drop_last() =~= m.subrange(i + 1, end - 1));
        if i + 1 == end - 1 {
            assert(m.subrange(i + 1, end - 1) =~= Seq::<usize>::empty());
        }
        if pair_hit(kind, sessions[m[i] as int], sessions[m[end - 1] as int]) {
            let e = (p, m[i], m[end - 1]);
            assert(prev.push(e).drop_last() =~= prev);
        }
    }
}

/// The conflicts among members `m` of one period whose first session has
/// keyword `kw` are all the pairs of its members with that keyword.
proof fn lemma_group_keyword_hits(sessions: Seq<SessionInfo>, p: Seq<char>, m: Seq<usize>, end: nat, kw: Seq<char>)
    requires
        valid_keyword(kw),
        end <= m.len(),
    ensures
        keyword_hits(sessions, group_hits(ConflictType::PersonalClassification, sessions, p, m, end), kw) + tri(
            keyword_members(sessions, m.subrange(end as int, m.len() as int), kw),
        ) == tri(keyword_members(sessions, m, kw)),
    decreases end,
{
    let kind = ConflictType::PersonalClassification;
    if end == 0 {
        assert(m.subrange(0, m.len() as int) =~= m);
    } else {
        let e = (end - 1) as nat;
        lemma_group_keyword_hits(sessions, p, m, e, kw);
        lemma_row_keyword_hits(sessions, p, m, e as int, m.len(), kw);
        lemma_hits_concat(
            sessions,
            group_hits(kind, sessions, p, m, e),
            row_hits(kind, sessions, p, m, e as int, m.len()),
            kw,
        );
        let rest = m.subrange(end as int, m.len() as int);
        assert(m.subrange(e as int, m.len() as int) =~= seq![m[e as int]] + rest);
        lemma_members_concat(sessions, seq![m[e as int]], rest, kw);
        let y = keyword_members(sessions, rest, kw);
        assert(tri(y + 1) == y + tri(y));
        assert(group_hits(kind, sessions, p, m, end) == group_hits(kind, sessions, p, m, e) + row_hits(
            kind,
            sessions,
            p,
            m,
            e as int,
            m.len(),
        ));
        assert(rest == m.subrange(e as int + 1, m.len() as int));
        let one = seq![m[e as int]];
        assert(one.len() == 1 && one.last() == m[e as int]);
        assert(one.drop_last() =~= Seq::<usize>::empty());
        assert(keyword_members(sessions, Seq::<usize>::empty(), kw) == 0);
        assert(keyword_members(sessions, seq![m[e as int]], kw) == if has_keyword(sessions, m[e as int], kw) {
            1nat
        } else {
            0nat
        });
    }
}


/// Every group's conflicts with keyword `kw` are among all of them.
proof fn lemma_all_keyword_hits(
    sessions: Seq<SessionInfo>,
    groups: Seq<(Seq<char>, Seq<usize>)>,
    end: nat,
    g: int,
    kw: Seq<char>,
)
    requires
        valid_keyword(kw),
        0 <= g < end <= groups.len(),
    ensures
        keyword_hits(sessions, all_hits(ConflictType::PersonalClassification, sessions, groups, end), kw) >= tri(
            keyword_members(sessions, groups[g].1, kw),
        ),
    decreases end,
{
    let kind = ConflictType::PersonalClassification;
    let e = (end - 1) as nat;
    let m = groups[e as int].1;
    lemma_hits_concat(sessions, all_hits(kind, sessions, groups, e), group_hits(kind, sessions, groups[e as int].0, m, m.len()), kw);
    if g == e {
        lemma_group_keyword_hits(sessions, groups[e as int].0, m, m.len(), kw);
        assert(m.subrange(m.len() as int, m.len() as int) =~= Seq::<usize>::empty());
        assert(keyword_members(sessions, Seq::<usize>::empty(), kw) == 0);
    } else {
        lemma_all_keyword_hits(sessions, groups, e, g, kw);
    }
}

// ---------------------------------------------------------------------------
// The period groups
// ---------------------------------------------------------------------------

/// The groups of a shorter prefix are the first groups of a longer one.
proof fn lemma_groups_prefix(sessions: Seq<SessionInfo>, a: nat, b: nat)
    requires
        a <= b,
    ensures
        period_groups_upto(sessions, a).len() <= period_groups_upto(sessions, b).len(),
        forall|g: int|
            0 <= g < period_groups_upto(sessions, a).len() ==> #[trigger] period_groups_upto(sessions, b)[g]
                == period_groups_upto(sessions, a)[g],
    decreases b,
{
    if a < b {
        lemma_groups_prefix(sessions, a, (b - 1) as nat);
    }
}

/// Each group of the first `end` sessions is the group of a session that
/// opens its period, and no two groups have the same period.
proof fn lemma_groups_distinct(sessions: Seq<SessionInfo>, end: nat)
    requires
        end <= sessions.len(),
    ensures
        forall|g: int|
            0 <= g < period_groups_upto(sessions, end).len() ==> exists|j: int|
                0 <= j < end && (#[trigger] period_groups_upto(sessions, end)[g]).0 == sessions[j].session_period@,
        forall|g1: int, g2: int|
            0 <= g1 < g2 < period_groups_upto(sessions, end).len() ==> (#[trigger] period_groups_upto(sessions, end)[g1]).0
                != (#[trigger] period_groups_upto(sessions, end)[g2]).0,
    decreases end,
{
    if end > 0 {
        let e = (end - 1) as nat;
        lemma_groups_distinct(sessions, e);
        let prev = period_groups_upto(sessions, e);
        let cur = period_groups_upto(sessions, end);
        if first_in_period(sessions, e as int) {
            assert forall|g: int| 0 <= g < cur.len() implies exists|j: int|
                0 <= j < end && (#[trigger] cur[g]).0 == sessions[j].session_period@ by {
                if g < prev.len() {
                    assert(cur[g] == prev[g]);
                    let j = choose|j: int| 0 <= j < e && prev[g].0 == sessions[j].session_period@;
                } else {
                    assert(cur[g].0 == sessions[e as int].session_period@);
                }
            }
            assert forall|g1: int, g2: int| 0 <= g1 < g2 < cur.len() implies (#[trigger] cur[g1]).0 != (
            #[trigger] cur[g2]).0 by {
                assert(cur[g1] == prev[g1]);
                if g2 < prev.len() {
                    assert(cur[g2] == prev[g2]);
                } else {
                    let j = choose|j: int| 0 <= j < e && prev[g1].0 == sessions[j].session_period@;
                    assert(sessions[j].session_period@ != sessions[e as int].session_period@);
                }
            }
        } else {
            assert forall|g: int| 0 <= g < cur.len() implies exists|j: int|
                0 <= j < end && (#[trigger] cur[g]).0 == sessions[j].session_period@ by {
                let j = choose|j: int| 0 <= j < e && prev[g].0 == sessions[j].session_period@;
            }
        }
    }
}

/// The period of session `i` is the period of one of the groups of the
/// first `i + 1` sessions.
proof fn lemma_period_covered(sessions: Seq<SessionInfo>, i: int)
    requires
        0 <= i < sessions.len(),
    ensures
        exists|g: int|
            0 <= g < period_groups_upto(sessions, (i + 1) as nat).len() && (#[trigger] period_groups_upto(
                sessions,
                (i + 1) as nat,
            )[g]).0 == sessions[i].session_period@,
    decreases i,
{
    let cur = period_groups_upto(sessions, (i + 1) as nat);
    if first_in_period(sessions, i) {
        let prev = period_groups_upto(sessions, i as nat);
        assert(cur[prev.len() as int].0 == sessions[i].session_period@);
    } else {
        let j = choose|j: int| 0 <= j < i && #[trigger] sessions[j].session_period@ == sessions[i].session_period@;
        lemma_period_covered(sessions, j);
        lemma_groups_prefix(sessions, (j + 1) as nat, (i + 1) as nat);
        let g = choose|g: int|
            0 <= g < period_groups_upto(sessions, (j + 1) as nat).len() && (#[trigger] period_groups_upto(
                sessions,
                (j + 1) as nat,
            )[g]).0 == sessions[j].session_period@;
        assert(cur[g] == period_groups_upto(sessions, (j + 1) as nat)[g]);
    }
}


/// Each group holds the sessions of its period.
proof fn lemma_groups_members(sessions: Seq<SessionInfo>, end: nat)
    ensures
        forall|g: int|
            0 <= g < period_groups_upto(sessions, end).len() ==> (#[trigger] period_groups_upto(sessions, end)[g]).1
                == period_members(sessions, period_groups_upto(sessions, end)[g].0, sessions.len()),
    decreases end,
{
    if end > 0 {
        let e = (end - 1) as nat;
        lemma_groups_members(sessions, e);
        let prev = period_groups_upto(sessions, e);
        let cur = period_groups_upto(sessions, end);
        assert forall|g: int| 0 <= g < cur.len() implies (#[trigger] cur[g]).1 == period_members(
            sessions,
            cur[g].0,
            sessions.len(),
        ) by {
            if g < prev.len() {
                assert(cur[g] == prev[g]);
            }
        }
    }
}

// ---------------------------------------------------------------------------
// Counting sessions with a keyword
// ---------------------------------------------------------------------------

/// How many of the first `end` sessions have keyword `kw`.
pub open spec fn keyword_sessions(sessions: Seq<SessionInfo>, kw: Seq<char>, end: nat) -> nat
    decreases end,
{
    if end == 0 {
        0
    } else {
        keyword_sessions(sessions, kw, (end - 1) as nat) + if normalize_spec(sessions[end - 1].notes@) == kw {
            1nat
        } else {
            0nat
        }
    }
}

/// The keywords the analyzer counts are valid, and a valid keyword occurs
/// among them once per session that has it.
proof fn lemma_keywords_counted(sessions: Seq<SessionInfo>, kw: Seq<char>, end: nat)
    requires
        end <= sessions.len(),
    ensures
        forall|k: int| 0 <= k < keywords_upto(sessions, end).len() ==> valid_keyword(#[trigger] keywords_upto(sessions, end)[k]),
        valid_keyword(kw) ==> count_in(keywords_upto(sessions, end), kw, keywords_upto(sessions, end).len())
            == keyword_sessions(sessions, kw, end),
    decreases end,
{
    if end > 0 {
        let e = (end - 1) as nat;
        lemma_keywords_counted(sessions, kw, e);
        let prev = keywords_upto(sessions, e);
        let n = normalize_spec(sessions[e as int].notes@);
        if n.len() > 0 && !has_substring(n, "notes"@) {
            lemma_count_in_push(prev, n, kw, prev.len());
            assert(prev.push(n)[prev.len() as int] == n);
            assert forall|k: int| 0 <= k < keywords_upto(sessions, end).len() implies valid_keyword(
                #[trigger] keywords_upto(sessions, end)[k],
            ) by {
                if k < prev.len() {
                    assert(keywords_upto(sessions, end)[k] == prev[k]);
                }
            }
        }
    }
}

/// How many of the first `end` groups have period `q`.
pub open spec fn period_count(groups: Seq<(Seq<char>, Seq<usize>)>, q: Seq<char>, end: nat) -> nat
    decreases end,
{
    if end == 0 {
        0
    } else {
        period_count(groups, q, (end - 1) as nat) + if groups[end - 1].0 == q {
            1nat
        } else {
            0nat
        }
    }
}

/// With distinct periods, a period held by one of the first `end` groups
/// is held by exactly one.
proof fn lemma_period_count_one(groups: Seq<(Seq<char>, Seq<usize>)>, q: Seq<char>, end: nat)
    requires
        end <= groups.len(),
        forall|g1: int, g2: int| 0 <= g1 < g2 < groups.len() ==> (#[trigger] groups[g1]).0 != (#[trigger] groups[g2]).0,
    ensures
        (exists|g: int| 0 <= g < end && (#[trigger] groups[g]).0 == q) ==> period_count(groups, q, end) == 1,
        (forall|g: int| 0 <= g < end ==> (#[trigger] groups[g]).0 != q) ==> period_count(groups, q, end) == 0,
    decreases end,
{
    if end > 0 {
        let e = (end - 1) as nat;
        lemma_period_count_one(groups, q, e);
        if groups[e as int].0 == q {
            assert forall|g: int| 0 <= g < e implies (#[trigger] groups[g]).0 != q by {
                assert(groups[g].0 != groups[e as int].0);
            }
        } else {
            if exists|g: int| 0 <= g < end && (#[trigger] groups[g]).0 == q {
                let g = choose|g: int| 0 <= g < end && (#[trigger] groups[g]).0 == q;
                assert(g < e);
            }
        }
    }
}

/// The sessions with keyword `kw` among the first `n`, counted group by
/// group over the first `end` groups.
pub open spec fn members_sum(
    sessions: Seq<SessionInfo>,
    groups: Seq<(Seq<char>, Seq<usize>)>,
    kw: Seq<char>,
    n: nat,
    end: nat,
) -> nat
    decreases end,
{
    if end == 0 {
        0
    } else {
        members_sum(sessions, groups, kw, n, (end - 1) as nat) + keyword_members(
            sessions,
            period_members(sessions, groups[end - 1].0, n),
            kw,
        )
    }
}

/// Taking in one more session adds it to the groups of its period.
proof fn lemma_members_sum_step(
    sessions: Seq<SessionInfo>,
    groups: Seq<(Seq<char>, Seq<usize>)>,
    kw: Seq<char>,
    n: nat,
    end: nat,
)
    requires
        0 < n <= sessions.len(),
        sessions.len() <= usize::MAX,
        end <= groups.len(),
    ensures
        members_sum(sessions, groups, kw, n, end) == members_sum(sessions, groups, kw, (n - 1) as nat, end) + if normalize_spec(
            sessions[n - 1].notes@,
        ) == kw {
            period_count(groups, sessions[n - 1].session_period@, end)
        } else {
            0
        },
    decreases end,
{
    if end > 0 {
        let e = (end - 1) as nat;
        lemma_members_sum_step(sessions, groups, kw, n, e);
        let p = groups[e as int].0;
        let prev = period_members(sessions, p, (n - 1) as nat);
        let x = (n - 1) as usize;
        assert(x as int == n - 1);
        if sessions[n - 1].session_period@ == p {
            assert(period_members(sessions, p, n) == prev.push(x));
            assert(prev.push(x).drop_last() =~= prev);
        }
    }
}

/// Counted group by group, the sessions with keyword `kw` are all counted
/// once.
proof fn lemma_members_sum_total(sessions: Seq<SessionInfo>, kw: Seq<char>, n: nat)
    requires
        n <= sessions.len(),
        sessions.len() <= usize::MAX,
    ensures
        members_sum(sessions, period_groups(sessions), kw, n, period_groups(sessions).len()) == keyword_sessions(
            sessions,
            kw,
            n,
        ),
    decreases n,
{
    let groups = period_groups(sessions);
    if n == 0 {
        lemma_members_sum_zero(sessions, groups, kw, groups.len());
    } else {
        lemma_members_sum_total(sessions, kw, (n - 1) as nat);
        lemma_members_sum_step(sessions, groups, kw, n, groups.len());
        lemma_groups_distinct(sessions, sessions.len());
        lemma_period_covered(sessions, n - 1);
        lemma_groups_prefix(sessions, n, sessions.len());
        let g = choose|g: int|
            0 <= g < period_groups_upto(sessions, n).len() && (#[trigger] period_groups_upto(sessions, n)[g]).0
                == sessions[n - 1].session_period@;
        assert(groups[g] == period_groups_upto(sessions, n)[g]);
        lemma_period_count_one(groups, sessions[n - 1].session_period@, groups.len());
    }
}

proof fn lemma_members_sum_zero(
    sessions: Seq<SessionInfo>,
    groups: Seq<(Seq<char>, Seq<usize>)>,
    kw: Seq<char>,
    end: nat,
)
    ensures
        members_sum(sessions, groups, kw, 0, end) == 0,
    decreases end,
{
    if end > 0 {
        lemma_members_sum_zero(sessions, groups, kw, (end - 1) as nat);
        assert(period_members(sessions, groups[end - 1].0, 0) =~= Seq::<usize>::empty());
    }
}


proof fn lemma_members_sum_bound(
    sessions: Seq<SessionInfo>,
    groups: Seq<(Seq<char>, Seq<usize>)>,
    kw: Seq<char>,
    n: nat,
    end: nat,
    b: nat,
)
    requires
        end <= groups.len(),
        forall|g: int| 0 <= g < end ==> keyword_members(sessions, period_members(sessions, #[trigger] groups[g].0, n), kw) <= b,
    ensures
        members_sum(sessions, groups, kw, n, end) <= end * b,
    decreases end,
{
    if end > 0 {
        let e = (end - 1) as nat;
        lemma_members_sum_bound(sessions, groups, kw, n, e, b);
        assert(end * b == e * b + b) by (nonlinear_arith)
            requires
                end == e + 1,
        ;
    }
}

/// With `c` sessions of a keyword spread over the period groups, some group
/// holds at least `q` of them when `c` exceeds `q - 1` per group.
proof fn lemma_crowded_group(sessions: Seq<SessionInfo>, kw: Seq<char>, q: nat)
    requires
        sessions.len() <= usize::MAX,
        q >= 1,
        keyword_sessions(sessions, kw, sessions.len()) > period_groups(sessions).len() * (q - 1),
    ensures
        exists|g: int|
            0 <= g < period_groups(sessions).len() && keyword_members(sessions, (#[trigger] period_groups(sessions)[g]).1, kw)
                >= q,
{
    let groups = period_groups(sessions);
    lemma_groups_members(sessions, sessions.len());
    if forall|g: int| 0 <= g < groups.len() ==> keyword_members(sessions, (#[trigger] groups[g]).1, kw) < q {
        assert forall|g: int| 0 <= g < groups.len() implies keyword_members(
            sessions,
            period_members(sessions, #[trigger] groups[g].0, sessions.len()),
            kw,
        ) <= (q - 1) as nat by {
            assert(groups[g].1 == period_members(sessions, groups[g].0, sessions.len()));
            assert(keyword_members(sessions, groups[g].1, kw) < q);
        }
        lemma_members_sum_bound(sessions, groups, kw, sessions.len(), groups.len(), (q - 1) as nat);
        lemma_members_sum_total(sessions, kw, sessions.len());
        assert(false);
    }
}

// ---------------------------------------------------------------------------
// Keywords are counted apart
// ---------------------------------------------------------------------------

/// The conflicts with each of the first `end` keywords of `d`, summed.
pub open spec fn hits_by_keywords(
    sessions: Seq<SessionInfo>,
    h: Seq<(Seq<char>, usize, usize)>,
    d: Seq<Seq<char>>,
    end: nat,
) -> nat
    decreases end,
{
    if end == 0 {
        0
    } else {
        hits_by_keywords(sessions, h, d, (end - 1) as nat) + keyword_hits(sessions, h, d[end - 1])
    }
}

proof fn lemma_hits_by_keywords_step(
    sessions: Seq<SessionInfo>,
    h: Seq<(Seq<char>, usize, usize)>,
    d: Seq<Seq<char>>,
    end: nat,
)
    requires
        h.len() > 0,
        end <= d.len(),
    ensures
        hits_by_keywords(sessions, h, d, end) == hits_by_keywords(sessions, h.drop_last(), d, end) + count_in(
            d,
            normalize_spec(sessions[h.last().1 as int].notes@),
            end,
        ),
    decreases end,
{
    if end > 0 {
        lemma_hits_by_keywords_step(sessions, h, d, (end - 1) as nat);
    }
}

/// A conflict is counted under one keyword at most.
proof fn lemma_hits_by_keywords_bound(
    sessions: Seq<SessionInfo>,
    h: Seq<(Seq<char>, usize, usize)>,
    d: Seq<Seq<char>>,
    end: nat,
)
    requires
        end <= d.len(),
        forall|x: Seq<char>| #[trigger] count_in(d, x, end) <= 1,
    ensures
        hits_by_keywords(sessions, h, d, end) <= h.len(),
    decreases h.len(),
{
    if h.len() == 0 {
        lemma_hits_by_keywords_empty(sessions, h, d, end);
    } else {
        lemma_hits_by_keywords_bound(sessions, h.drop_last(), d, end);
        lemma_hits_by_keywords_step(sessions, h, d, end);
        assert(count_in(d, normalize_spec(sessions[h.last().1 as int].notes@), end) <= 1);
    }
}

proof fn lemma_hits_by_keywords_empty(
    sessions: Seq<SessionInfo>,
    h: Seq<(Seq<char>, usize, usize)>,
    d: Seq<Seq<char>>,
    end: nat,
)
    requires
        h.len() == 0,
    ensures
        hits_by_keywords(sessions, h, d, end) == 0,
    decreases end,
{
    if end > 0 {
        lemma_hits_by_keywords_empty(sessions, h, d, (end - 1) as nat);
    }
}

proof fn lemma_count_in_absent(s: Seq<Seq<char>>, x: Seq<char>, end: nat)
    requires
        end <= s.len(),
        !s.contains(x),
    ensures
        count_in(s, x, end) == 0,
    decreases end,
{
    if end > 0 {
        lemma_count_in_absent(s, x, (end - 1) as nat);
        assert(s[end - 1] != x);
    }
}

/// The distinct texts occur once each.
proof fn lemma_distinct_once(k: Seq<Seq<char>>, end: nat)
    requires
        end <= k.len(),
    ensures
        forall|x: Seq<char>| #[trigger] count_in(distinct_upto(k, end), x, distinct_upto(k, end).len()) <= 1,
    decreases end,
{
    if end > 0 {
        let e = (end - 1) as nat;
        lemma_distinct_once(k, e);
        let prev = distinct_upto(k, e);
        let y = k[e as int];
        if !prev.contains(y) {
            assert forall|x: Seq<char>| #[trigger] count_in(distinct_upto(k, end), x, distinct_upto(k, end).len()) <= 1 by {
                lemma_count_in_push(prev, y, x, prev.len());
                assert(prev.push(y)[prev.len() as int] == y);
                assert(count_in(prev, x, prev.len()) <= 1);
                if y == x {
                    lemma_count_in_absent(prev, x, prev.len());
                }
            }
        }
    }
}

/// The forced conflicts of the first `end` keywords are at most their
/// conflicts, keyword by keyword.
proof fn lemma_min_below_hits(
    sessions: Seq<SessionInfo>,
    h: Seq<(Seq<char>, usize, usize)>,
    k: Seq<Seq<char>>,
    d: Seq<Seq<char>>,
    end: nat,
)
    requires
        end <= d.len(),
        forall|t: int| 0 <= t < end ==> keyword_min(count_in(k, #[trigger] d[t], k.len())) <= keyword_hits(sessions, h, d[t]),
    ensures
        keywords_min(k, d, end) <= hits_by_keywords(sessions, h, d, end),
    decreases end,
{
    if end > 0 {
        lemma_min_below_hits(sessions, h, k, d, (end - 1) as nat);
        assert(keyword_min(count_in(k, d[end - 1], k.len())) <= keyword_hits(sessions, h, d[end - 1]));
    }
}

/// The conflicts with one keyword are at least the pairs it forces.
proof fn lemma_keyword_forced(sessions: Seq<SessionInfo>, kw: Seq<char>)
    requires
        sessions.len() <= usize::MAX,
        period_groups(sessions).len() <= 8,
        valid_keyword(kw),
    ensures
        keyword_min(keyword_sessions(sessions, kw, sessions.len())) <= keyword_hits(
            sessions,
            pair_conflicts(ConflictType::PersonalClassification, sessions),
            kw,
        ),
{
    let c = keyword_sessions(sessions, kw, sessions.len());
    let groups = period_groups(sessions);
    if c > 8 {
        let q: nat = ((c + 7) / 8) as nat;
        if q > 1 {
            let gl = groups.len();
            assert(c > gl * (q - 1)) by (nonlinear_arith)
                requires
                    gl <= 8,
                    q == (c + 7) / 8,
                    q > 1,
                    c > 8,
            ;
            lemma_crowded_group(sessions, kw, q);
            let g = choose|g: int|
                0 <= g < groups.len() && keyword_members(sessions, (#[trigger] groups[g]).1, kw) >= q;
            lemma_all_keyword_hits(sessions, groups, groups.len(), g, kw);
            lemma_tri_mono(q, keyword_members(sessions, groups[g].1, kw));
            lemma_tri_value(q);
            let t = tri(q);
            assert(pairs_of(q) == t) by (nonlinear_arith)
                requires
                    t * 2 == q * (q - 1),
                    pairs_of(q) == (q * (q - 1) / 2) as nat,
            ;
        }
    }
}

/// The analyzer's least number of personal-classification conflicts is a
/// lower bound: when the sessions are held in at most eight periods, they
/// have at least that many personal-classification conflicts.
pub proof fn law_keyword_minimum_is_lower_bound(sessions: Seq<SessionInfo>)
    requires
        sessions.len() <= usize::MAX,
        period_groups(sessions).len() <= 8,
    ensures
        ({
            let k = keywords_upto(sessions, sessions.len());
            pair_conflicts(ConflictType::PersonalClassification, sessions).len() >= keywords_min(
                k,
                distinct(k),
                distinct(k).len(),
            )
        }),
{
    let k = keywords_upto(sessions, sessions.len());
    let d = distinct(k);
    let h = pair_conflicts(ConflictType::PersonalClassification, sessions);
    lemma_distinct_members(k, k.len());
    lemma_distinct_once(k, k.len());
    lemma_keywords_counted(sessions, Seq::empty(), sessions.len());
    assert forall|t: int| 0 <= t < d.len() implies keyword_min(count_in(k, #[trigger] d[t], k.len())) <= keyword_hits(
        sessions,
        h,
        d[t],
    ) by {
        assert(k.contains(d[t]));
        let i = choose|i: int| 0 <= i < k.len() && k[i] == d[t];
        assert(valid_keyword(k[i]));
        lemma_keywords_counted(sessions, d[t], sessions.len());
        lemma_keyword_forced(sessions, d[t]);
    }
    lemma_min_below_hits(sessions, h, k, d, d.len());
    lemma_hits_by_keywords_bound(sessions, h, d, d.len());
}


// ===========================================================================
// Speaker/organizer conflicts
// ===========================================================================

/// No two speakers or organizers of session `s` have the same non-empty
/// normalised name.
pub open spec fn names_once(s: SessionInfo) -> bool {
    let p = s.speakers@ + s.organizers@;
    forall|i: int, j: int|
        0 <= i < j < p.len() && normalize_spec(#[trigger] p[i]@).len() > 0 ==> normalize_spec(p[i]@)
            != normalize_spec(#[trigger] p[j]@)
}

/// Session `x` lists a speaker or organizer whose normalised name is
/// `name`.
pub open spec fn lists_name(sessions: Seq<SessionInfo>, x: usize, name: Seq<char>) -> bool {
    let p = sessions[x as int].speakers@ + sessions[x as int].organizers@;
    exists|i: int| 0 <= i < p.len() && normalize_spec(#[trigger] p[i]@) == name
}

/// How many of the indices `m` name sessions that list `name`.
pub open spec fn name_members(sessions: Seq<SessionInfo>, m: Seq<usize>, name: Seq<char>) -> nat
    decreases m.len(),
{
    if m.len() == 0 {
        0
    } else {
        name_members(sessions, m.drop_last(), name) + if lists_name(sessions, m.last(), name) {
            1nat
        } else {
            0nat
        }
    }
}

proof fn lemma_name_members_concat(sessions: Seq<SessionInfo>, a: Seq<usize>, b: Seq<usize>, name: Seq<char>)
    ensures
        name_members(sessions, a + b, name) == name_members(sessions, a, name) + name_members(sessions, b, name),
    decreases b.len(),
{
    if b.len() == 0 {
        assert(a + b =~= a);
    } else {
        lemma_name_members_concat(sessions, a, b.drop_last(), name);
        assert((a + b).drop_last() =~= a + b.drop_last());
        assert((a + b).last() == b.last());
    }
}

/// A name occurs among the names of the first `end` members once per member
/// that lists it; every name there is non-empty.
proof fn lemma_slot_names_count(sessions: Seq<SessionInfo>, m: Seq<usize>, name: Seq<char>, end: nat)
    requires
        end <= m.len(),
        name.len() > 0,
        forall|k: int| 0 <= k < m.len() ==> #[trigger] m[k] < sessions.len() && names_once(sessions[m[k] as int]),
    ensures
        count_in(slot_names(sessions, m, end), name, slot_names(sessions, m, end).len()) == name_members(
            sessions,
            m.subrange(0, end as int),
            name,
        ),
    decreases end,
{
    if end == 0 {
        assert(m.subrange(0, 0) =~= Seq::<usize>::empty());
    } else {
        let e = (end - 1) as nat;
        lemma_slot_names_count(sessions, m, name, e);
        let x = m[e as int];
        let p = sessions[x as int].speakers@ + sessions[x as int].organizers@;
        assert(names_once(sessions[x as int]));
        lemma_name_count(p, name, p.len());
        lemma_count_in_concat(slot_names(sessions, m, e), normalized_names(p, p.len()), name);
        assert(m.subrange(0, end as int).drop_last() =~= m.subrange(0, e as int));
        assert(m.subrange(0, end as int).last() == x);
    }
}

proof fn lemma_slot_names_nonempty(sessions: Seq<SessionInfo>, m: Seq<usize>, end: nat)
    ensures
        forall|k: int| 0 <= k < slot_names(sessions, m, end).len() ==> (#[trigger] slot_names(sessions, m, end)[k]).len() > 0,
    decreases end,
{
    if end > 0 {
        let e = (end - 1) as nat;
        lemma_slot_names_nonempty(sessions, m, e);
        let s = sessions[m[e as int] as int];
        let p = s.speakers@ + s.organizers@;
        lemma_normalized_nonempty(p, p.len());
        let prev = slot_names(sessions, m, e);
        let here = normalized_names(p, p.len());
        assert forall|k: int| 0 <= k < slot_names(sessions, m, end).len() implies (#[trigger] slot_names(sessions, m, end)[k]).len()
            > 0 by {
            if k < prev.len() {
                assert(slot_names(sessions, m, end)[k] == prev[k]);
            } else {
                assert(slot_names(sessions, m, end)[k] == here[k - prev.len()]);
            }
        }
    }
}

/// Member `i` conflicts with every later member before `end` that lists
/// `name` too, when it lists `name`.
proof fn lemma_row_person_hits(sessions: Seq<SessionInfo>, p: Seq<char>, m: Seq<usize>, i: int, end: nat, name: Seq<char>)
    requires
        name.len() > 0,
        0 <= i < m.len(),
        end <= m.len(),
    ensures
        row_hits(ConflictType::Personal, sessions, p, m, i, end).len() >= if lists_name(sessions, m[i], name) && i + 1
            <= end {
            name_members(sessions, m.subrange(i + 1, end as int), name)
        } else {
            0
        },
    decreases end,
{
    let kind = ConflictType::Personal;
    if end == 0 || end <= i + 1 {
        if i + 1 <= end {
            assert(m.subrange(i + 1, end as int) =~= Seq::<usize>::empty());
        }
    } else {
        lemma_row_person_hits(sessions, p, m, i, (end - 1) as nat, name);
        assert(m.subrange(i + 1, end as int).drop_last() =~= m.subrange(i + 1, end - 1));
        if i + 1 == end - 1 {
            assert(m.subrange(i + 1, end - 1) =~= Seq::<usize>::empty());
        }
        let x = m[i];
        let y = m[end - 1];
        if lists_name(sessions, x, name) && lists_name(sessions, y, name) {
            let px = sessions[x as int].speakers@ + sessions[x as int].organizers@;
            let py = sessions[y as int].speakers@ + sessions[y as int].organizers@;
            let a = choose|a: int| 0 <= a < px.len() && normalize_spec(#[trigger] px[a]@) == name;
            let b = choose|b: int| 0 <= b < py.len() && normalize_spec(#[trigger] py[b]@) == name;
            assert(normalize_spec(px[a]@) == normalize_spec(py[b]@));
            assert(pair_hit(kind, sessions[x as int], sessions[y as int]));
        }
    }
}

/// The conflicts among the members of one period are at least the pairs of
/// its members that list `name`.
proof fn lemma_group_person_hits(sessions: Seq<SessionInfo>, p: Seq<char>, m: Seq<usize>, end: nat, name: Seq<char>)
    requires
        name.len() > 0,
        end <= m.len(),
    ensures
        group_hits(ConflictType::Personal, sessions, p, m, end).len() + tri(
            name_members(sessions, m.subrange(end as int, m.len() as int), name),
        ) >= tri(name_members(sessions, m, name)),
    decreases end,
{
    let kind = ConflictType::Personal;
    if end == 0 {
        assert(m.subrange(0, m.len() as int) =~= m);
    } else {
        let e = (end - 1) as nat;
        lemma_group_person_hits(sessions, p, m, e, name);
        lemma_row_person_hits(sessions, p, m, e as int, m.len(), name);
        let rest = m.subrange(end as int, m.len() as int);
        assert(m.subrange(e as int, m.len() as int) =~= seq![m[e as int]] + rest);
        lemma_name_members_concat(sessions, seq![m[e as int]], rest, name);
        let one = seq![m[e as int]];
        assert(one.len() == 1 && one.last() == m[e as int]);
        assert(one.drop_last() =~= Seq::<usize>::empty());
        assert(name_members(sessions, Seq::<usize>::empty(), name) == 0);
        let y = name_members(sessions, rest, name);
        assert(tri(y + 1) == y + tri(y));
        assert(rest == m.subrange(e as int + 1, m.len() as int));
    }
}

/// Every group's conflicts are among all of them.
proof fn lemma_all_person_hits(sessions: Seq<SessionInfo>, groups: Seq<(Seq<char>, Seq<usize>)>, end: nat, g: int)
    requires
        0 <= g < end <= groups.len(),
    ensures
        all_hits(ConflictType::Personal, sessions, groups, end).len() >= group_hits(
            ConflictType::Personal,
            sessions,
            groups[g].0,
            groups[g].1,
            groups[g].1.len(),
        ).len(),
    decreases end,
{
    if g < end - 1 {
        lemma_all_person_hits(sessions, groups, (end - 1) as nat, g);
    }
}

/// The largest load of a person in a period is the load of some group.
proof fn lemma_load_attained(sessions: Seq<SessionInfo>, groups: Seq<(Seq<char>, Seq<usize>)>, end: nat)
    requires
        end <= groups.len(),
        max_person_load(sessions, groups, end) > 0,
    ensures
        exists|g: int|
            0 <= g < end && max_count_upto(
                slot_names(sessions, (#[trigger] groups[g]).1, groups[g].1.len()),
                slot_names(sessions, groups[g].1, groups[g].1.len()).len(),
            ) == max_person_load(sessions, groups, end),
    decreases end,
{
    let e = (end - 1) as nat;
    let names = slot_names(sessions, groups[e as int].1, groups[e as int].1.len());
    let c = max_count_upto(names, names.len());
    if c <= max_person_load(sessions, groups, e) {
        lemma_load_attained(sessions, groups, e);
        let g = choose|g: int|
            0 <= g < e && max_count_upto(
                slot_names(sessions, (#[trigger] groups[g]).1, groups[g].1.len()),
                slot_names(sessions, groups[g].1, groups[g].1.len()).len(),
            ) == max_person_load(sessions, groups, e);
        assert(0 <= g < end);
    }
}

/// The analyzer's least number of speaker/organizer conflicts is a lower
/// bound: the sessions have at least that many, provided no session lists
/// the same person twice.
pub proof fn law_person_minimum_is_lower_bound(sessions: Seq<SessionInfo>)
    requires
        forall|i: int| 0 <= i < sessions.len() ==> names_once(#[trigger] sessions[i]),
    ensures
        pair_conflicts(ConflictType::Personal, sessions).len() >= person_min(
            max_person_load(sessions, period_groups(sessions), period_groups(sessions).len()),
        ),
{
    let groups = period_groups(sessions);
    let load = max_person_load(sessions, groups, groups.len());
    if load > 8 {
        lemma_load_attained(sessions, groups, groups.len());
        let g = choose|g: int|
            0 <= g < groups.len() && max_count_upto(
                slot_names(sessions, (#[trigger] groups[g]).1, groups[g].1.len()),
                slot_names(sessions, groups[g].1, groups[g].1.len()).len(),
            ) == load;
        let m = groups[g].1;
        let names = slot_names(sessions, m, m.len());
        lemma_max_count_attained(names, names.len());
        let i = choose|i: int| 0 <= i < names.len() && count_in(names, #[trigger] names[i], names.len())
            == max_count_upto(names, names.len());
        let name = names[i];
        lemma_slot_names_nonempty(sessions, m, m.len());
        crate::analysis::lemma_period_groups_valid(sessions, sessions.len());
        assert forall|k: int| 0 <= k < m.len() implies #[trigger] m[k] < sessions.len() && names_once(
            sessions[m[k] as int],
        ) by {
            assert(period_groups_upto(sessions, sessions.len())[g].1[k] < sessions.len());
        }
        lemma_slot_names_count(sessions, m, name, m.len());
        assert(m.subrange(0, m.len() as int) =~= m);
        lemma_group_person_hits(sessions, groups[g].0, m, m.len(), name);
        assert(m.subrange(m.len() as int, m.len() as int) =~= Seq::<usize>::empty());
        assert(name_members(sessions, Seq::<usize>::empty(), name) == 0);
        lemma_all_person_hits(sessions, groups, groups.len(), g);
        assert(tri(load) >= load - 1) by {
            assert(tri(load) == (load - 1) + tri((load - 1) as nat));
        }
    }
}

} // verus!
