//! Conflict counts of a schedule edited on the web page: the sessions come
//! back as text fields, and the same pairwise tests as everywhere else
//! decide what counts as a conflict.
use vstd::prelude::*;
use crate::conflict_detection::{
    codes_overlap, has_classification_conflict, has_personal_classification_conflict, has_series_back_to_back_conflict,
    has_series_room_conflict, has_speaker_organizer_conflict, notes_clash, series_back_to_back_clash,
    series_room_clash, share_person,
};
use crate::counts::{lemma_pairs_mono, lemma_row_pairs_mono, pairs_upto, row_pairs};
use crate::text::{split_any, split_any_trimmed, split_on, split_trimmed, trim_spec, trimmed_pieces};

verus! {

/// A session as the web page sends it: its period (when it has one) and
/// its other fields as text.
#[derive(Clone, Debug)]
pub struct PageSession {
    pub period: Option<String>,
    pub room: String,
    pub title: String,
    pub classification: String,
    pub organizers: String,
    pub speakers: String,
    pub notes: String,
}

/// The classification codes of a session: its field split at semicolons,
/// trimmed, empty ones left out.
pub open spec fn page_codes(s: PageSession) -> Seq<Seq<char>> {
    let pieces = split_on(s.classification@, ';');
    trimmed_pieces(pieces, pieces.len())
}

/// The characters that separate names on the web page.
pub open spec fn name_separators() -> Seq<char> {
    seq![';', ',', '|']
}

/// The names in a field: split at `;`, `,` and `|`, trimmed, empty ones
/// left out.
pub open spec fn page_names(field: Seq<char>) -> Seq<Seq<char>> {
    let pieces = split_any(field, name_separators());
    trimmed_pieces(pieces, pieces.len())
}

/// The period of a session as text (empty when it has none).
pub open spec fn period_text(s: PageSession) -> Seq<char> {
    match s.period {
        Some(p) => p@,
        None => Seq::empty(),
    }
}

/// Both sessions have a period, the same one.
pub open spec fn same_period(a: PageSession, b: PageSession) -> bool {
    a.period is Some && b.period is Some && period_text(a) == period_text(b)
}

/// Two code lists (as texts) share a code.
pub open spec fn texts_overlap(c1: Seq<Seq<char>>, c2: Seq<Seq<char>>) -> bool {
    exists|i: int, j: int| 0 <= i < c1.len() && 0 <= j < c2.len() && #[trigger] c1[i] == #[trigger] c2[j]
}

/// Some name of `p1` and some name of `p2` have the same non-empty
/// normalised form.
pub open spec fn names_shared(p1: Seq<Seq<char>>, p2: Seq<Seq<char>>) -> bool {
    exists|i: int, j: int|
        0 <= i < p1.len() && 0 <= j < p2.len() && crate::conflict_detection::normalize_spec(#[trigger] p1[i]).len()
            > 0 && crate::conflict_detection::normalize_spec(p1[i]) == crate::conflict_detection::normalize_spec(
            #[trigger] p2[j],
        )
}

/// Sessions `i < j` of one period share a classification code.
pub open spec fn class_pair(es: Seq<PageSession>, i: int, j: int) -> bool {
    same_period(es[i], es[j]) && texts_overlap(page_codes(es[i]), page_codes(es[j]))
}

/// Sessions of one period share a speaker or organizer.
pub open spec fn person_pair(es: Seq<PageSession>, i: int, j: int) -> bool {
    same_period(es[i], es[j]) && names_shared(
        page_names(es[i].speakers@) + page_names(es[i].organizers@),
        page_names(es[j].speakers@) + page_names(es[j].organizers@),
    )
}

/// Sessions of one period have the same notes keyword.
pub open spec fn notes_pair(es: Seq<PageSession>, i: int, j: int) -> bool {
    same_period(es[i], es[j]) && notes_clash(es[i].notes@, es[j].notes@)
}

/// Two parts of one series in different rooms.
pub open spec fn room_pair(es: Seq<PageSession>, i: int, j: int) -> bool {
    series_room_clash(es[i].title@, es[i].room@, es[j].title@, es[j].room@)
}

/// Two consecutive parts of one series in the same period or in periods
/// that are not adjacent.
pub open spec fn back_pair(es: Seq<PageSession>, i: int, j: int) -> bool {
    series_back_to_back_clash(es[i].title@, period_text(es[i]), es[j].title@, period_text(es[j]))
}

/// The conflicts of an edited schedule.
#[derive(Clone, Copy, Debug)]
pub struct PageConflictCounts {
    pub classification: i32,
    pub personal: i32,
    pub personal_classification: i32,
    pub series_room: i32,
    pub series_back_to_back: i32,
    pub total: i32,
}

/// The pairs of sessions of one period that share a classification code.
pub open spec fn class_pairs(es: Seq<PageSession>) -> nat {
    pairs_upto(|i: int, j: int| class_pair(es, i, j), es.len(), es.len())
}

/// The pairs of sessions of one period that share a person.
pub open spec fn person_pairs(es: Seq<PageSession>) -> nat {
    pairs_upto(|i: int, j: int| person_pair(es, i, j), es.len(), es.len())
}

/// The pairs of sessions of one period with the same notes keyword.
pub open spec fn notes_pairs(es: Seq<PageSession>) -> nat {
    pairs_upto(|i: int, j: int| notes_pair(es, i, j), es.len(), es.len())
}

/// The pairs of parts of one series in different rooms.
pub open spec fn room_pairs(es: Seq<PageSession>) -> nat {
    pairs_upto(|i: int, j: int| room_pair(es, i, j), es.len(), es.len())
}

/// The pairs of consecutive parts of one series not held back to back.
pub open spec fn back_pairs(es: Seq<PageSession>) -> nat {
    pairs_upto(|i: int, j: int| back_pair(es, i, j), es.len(), es.len())
}

pub(crate) proof fn lemma_texts_overlap(a: Seq<String>, b: Seq<String>)
    ensures
        codes_overlap(a, b) == texts_overlap(
            a.map_values(|t: String| t@),
            b.map_values(|t: String| t@),
        ),
{
    let va = a.map_values(|t: String| t@);
    let vb = b.map_values(|t: String| t@);
    if codes_overlap(a, b) {
        let (i, j) = choose|i: int, j: int| 0 <= i < a.len() && 0 <= j < b.len() && #[trigger] a[i]@ == #[trigger] b[j]@;
        assert(va[i] == vb[j]);
    }
    if texts_overlap(va, vb) {
        let (i, j) = choose|i: int, j: int| 0 <= i < va.len() && 0 <= j < vb.len() && #[trigger] va[i] == #[trigger] vb[j];
        assert(a[i]@ == b[j]@);
    }
}

proof fn lemma_names_shared(a: Seq<String>, b: Seq<String>)
    ensures
        share_person(a, b) == names_shared(a.map_values(|t: String| t@), b.map_values(|t: String| t@)),
{
    let va = a.map_values(|t: String| t@);
    let vb = b.map_values(|t: String| t@);
    if share_person(a, b) {
        let (i, j) = choose|i: int, j: int|
            0 <= i < a.len() && 0 <= j < b.len() && crate::conflict_detection::normalize_spec(#[trigger] a[i]@).len() > 0
                && crate::conflict_detection::normalize_spec(a[i]@) == crate::conflict_detection::normalize_spec(
                #[trigger] b[j]@,
            );
        assert(va[i] == a[i]@ && vb[j] == b[j]@);
    }
    if names_shared(va, vb) {
        let (i, j) = choose|i: int, j: int|
            0 <= i < va.len() && 0 <= j < vb.len() && crate::conflict_detection::normalize_spec(#[trigger] va[i]).len()
                > 0 && crate::conflict_detection::normalize_spec(va[i]) == crate::conflict_detection::normalize_spec(
                #[trigger] vb[j],
            );
        assert(va[i] == a[i]@ && vb[j] == b[j]@);
    }
}

/// The fields of a session that the pairwise tests read, split.
struct SplitFields {
    codes: Vec<String>,
    speakers: Vec<String>,
    organizers: Vec<String>,
}

fn split_fields(s: &PageSession) -> (r: SplitFields)
    ensures
        r.codes@.map_values(|t: String| t@) == page_codes(*s),
        r.speakers@.map_values(|t: String| t@) == page_names(s.speakers@),
        r.organizers@.map_values(|t: String| t@) == page_names(s.organizers@),
{
    let seps: Vec<char> = vec![';', ',', '|'];
    assert(seps@ =~= name_separators());
    SplitFields {
        codes: split_trimmed(s.classification.as_str(), ';'),
        speakers: split_any_trimmed(s.speakers.as_str(), &seps),
        organizers: split_any_trimmed(s.organizers.as_str(), &seps),
    }
}

fn same_period_exec(a: &PageSession, b: &PageSession) -> (r: bool)
    ensures
        r == same_period(*a, *b),
{
    match (&a.period, &b.period) {
        (Some(p), Some(q)) => *p == *q,
        _ => false,
    }
}

fn period_str(s: &PageSession) -> (r: &str)
    ensures
        r@ == period_text(*s),
{
    match &s.period {
        Some(p) => p.as_str(),
        None => {
            proof {
                reveal_strlit("");
            }
            ""
        },
    }
}

/// Counts the conflicts of a schedule edited on the web page: pairs of
/// sessions of the same period sharing a classification code, a person or
/// a notes keyword, and, over all pairs of sessions, parts of one series in
/// different rooms and consecutive parts not held back to back.
pub fn count_page_conflicts(sessions: &Vec<PageSession>) -> (r: PageConflictCounts)
    requires
        class_pairs(sessions@) + person_pairs(sessions@) + notes_pairs(sessions@) + room_pairs(sessions@) + back_pairs(
            sessions@,
        ) <= i32::MAX,
    ensures
        r.classification == class_pairs(sessions@),
        r.personal == person_pairs(sessions@),
        r.personal_classification == notes_pairs(sessions@),
        r.series_room == room_pairs(sessions@),
        r.series_back_to_back == back_pairs(sessions@),
        r.total == r.classification + r.personal + r.personal_classification + r.series_room + r.series_back_to_back,
{
    let ghost es = sessions@;
    let n = sessions.len();
    let ghost pc = |i: int, j: int| class_pair(es, i, j);
    let ghost pp = |i: int, j: int| person_pair(es, i, j);
    let ghost pn = |i: int, j: int| notes_pair(es, i, j);
    let ghost pr = |i: int, j: int| room_pair(es, i, j);
    let ghost pb = |i: int, j: int| back_pair(es, i, j);
    let mut fields: Vec<SplitFields> = Vec::new();
    let mut k: usize = 0;
    while k < n
        invariant
            es == sessions@,
            n == es.len(),
            k <= n,
            fields@.len() == k,
            forall|q: int| 0 <= q < k ==> {
                &&& (#[trigger] fields@[q]).codes@.map_values(|t: String| t@) == page_codes(es[q])
                &&& fields@[q].speakers@.map_values(|t: String| t@) == page_names(es[q].speakers@)
                &&& fields@[q].organizers@.map_values(|t: String| t@) == page_names(es[q].organizers@)
            },
        decreases n - k,
    {
        fields.push(split_fields(&sessions[k]));
        k = k + 1;
    }
    let mut c: i32 = 0;
    let mut p: i32 = 0;
    let mut nk: i32 = 0;
    let mut sr: i32 = 0;
    let mut sb: i32 = 0;
    let mut i: usize = 0;
    while i < n
        invariant
            es == sessions@,
            n == es.len(),
            fields@.len() == n,
            forall|q: int| 0 <= q < n ==> {
                &&& (#[trigger] fields@[q]).codes@.map_values(|t: String| t@) == page_codes(es[q])
                &&& fields@[q].speakers@.map_values(|t: String| t@) == page_names(es[q].speakers@)
                &&& fields@[q].organizers@.map_values(|t: String| t@) == page_names(es[q].organizers@)
            },
            i <= n,
            pc == (|a: int, b: int| class_pair(es, a, b)),
            pp == (|a: int, b: int| person_pair(es, a, b)),
            pn == (|a: int, b: int| notes_pair(es, a, b)),
            pr == (|a: int, b: int| room_pair(es, a, b)),
            pb == (|a: int, b: int| back_pair(es, a, b)),
            pairs_upto(pc, n as nat, n as nat) + pairs_upto(pp, n as nat, n as nat) + pairs_upto(pn, n as nat, n as nat)
                + pairs_upto(pr, n as nat, n as nat) + pairs_upto(pb, n as nat, n as nat) <= i32::MAX,
            c >= 0 && p >= 0 && nk >= 0 && sr >= 0 && sb >= 0,
            c as nat == pairs_upto(pc, n as nat, i as nat),
            p as nat == pairs_upto(pp, n as nat, i as nat),
            nk as nat == pairs_upto(pn, n as nat, i as nat),
            sr as nat == pairs_upto(pr, n as nat, i as nat),
            sb as nat == pairs_upto(pb, n as nat, i as nat),
        decreases n - i,
    {
        proof {
            lemma_pairs_mono(pc, n as nat, (i + 1) as nat, n as nat);
            lemma_pairs_mono(pp, n as nat, (i + 1) as nat, n as nat);
            lemma_pairs_mono(pn, n as nat, (i + 1) as nat, n as nat);
            lemma_pairs_mono(pr, n as nat, (i + 1) as nat, n as nat);
            lemma_pairs_mono(pb, n as nat, (i + 1) as nat, n as nat);
        }
        let mut j: usize = i + 1;
        while j < n
            invariant
                es == sessions@,
                n == es.len(),
                fields@.len() == n,
                forall|q: int| 0 <= q < n ==> {
                    &&& (#[trigger] fields@[q]).codes@.map_values(|t: String| t@) == page_codes(es[q])
                    &&& fields@[q].speakers@.map_values(|t: String| t@) == page_names(es[q].speakers@)
                    &&& fields@[q].organizers@.map_values(|t: String| t@) == page_names(es[q].organizers@)
                },
                i < n,
                i + 1 <= j <= n,
                pc == (|a: int, b: int| class_pair(es, a, b)),
                pp == (|a: int, b: int| person_pair(es, a, b)),
                pn == (|a: int, b: int| notes_pair(es, a, b)),
                pr == (|a: int, b: int| room_pair(es, a, b)),
                pb == (|a: int, b: int| back_pair(es, a, b)),
                pairs_upto(pc, n as nat, (i + 1) as nat) + pairs_upto(pp, n as nat, (i + 1) as nat) + pairs_upto(
                    pn,
                    n as nat,
                    (i + 1) as nat,
                ) + pairs_upto(pr, n as nat, (i + 1) as nat) + pairs_upto(pb, n as nat, (i + 1) as nat)
                    <= i32::MAX,
                c >= 0 && p >= 0 && nk >= 0 && sr >= 0 && sb >= 0,
                c as nat == pairs_upto(pc, n as nat, i as nat) + row_pairs(pc, i as nat, j as nat),
                p as nat == pairs_upto(pp, n as nat, i as nat) + row_pairs(pp, i as nat, j as nat),
                nk as nat == pairs_upto(pn, n as nat, i as nat) + row_pairs(pn, i as nat, j as nat),
                sr as nat == pairs_upto(pr, n as nat, i as nat) + row_pairs(pr, i as nat, j as nat),
                sb as nat == pairs_upto(pb, n as nat, i as nat) + row_pairs(pb, i as nat, j as nat),
            decreases n - j,
        {
            proof {
                lemma_row_pairs_mono(pc, i as nat, (j + 1) as nat, n as nat);
                lemma_row_pairs_mono(pp, i as nat, (j + 1) as nat, n as nat);
                lemma_row_pairs_mono(pn, i as nat, (j + 1) as nat, n as nat);
                lemma_row_pairs_mono(pr, i as nat, (j + 1) as nat, n as nat);
                lemma_row_pairs_mono(pb, i as nat, (j + 1) as nat, n as nat);
            }
            let a = &sessions[i];
            let b = &sessions[j];
            let fa = &fields[i];
            let fb = &fields[j];
            let together = same_period_exec(a, b);
            let mut hit_c = false;
            let mut hit_p = false;
            let mut hit_n = false;
            if together {
                hit_c = has_classification_conflict(&fa.codes, &fb.codes);
                proof {
                    lemma_texts_overlap(fa.codes@, fb.codes@);
                }
                hit_p = has_speaker_organizer_conflict(&fa.speakers, &fa.organizers, &fb.speakers, &fb.organizers);
                proof {
                    lemma_names_shared(fa.speakers@ + fa.organizers@, fb.speakers@ + fb.organizers@);
                    assert((fa.speakers@ + fa.organizers@).map_values(|t: String| t@) =~= page_names(es[i as int].speakers@)
                        + page_names(es[i as int].organizers@));
                    assert((fb.speakers@ + fb.organizers@).map_values(|t: String| t@) =~= page_names(es[j as int].speakers@)
                        + page_names(es[j as int].organizers@));
                }
                hit_n = has_personal_classification_conflict(a.notes.as_str(), b.notes.as_str());
            }
            let hit_r = has_series_room_conflict(a.title.as_str(), a.room.as_str(), b.title.as_str(), b.room.as_str());
            let hit_b = has_series_back_to_back_conflict(a.title.as_str(), period_str(a), b.title.as_str(), period_str(b));
            assert(hit_c == pc(i as int, j as int));
            assert(hit_p == pp(i as int, j as int));
            assert(hit_n == pn(i as int, j as int));
            assert(hit_r == pr(i as int, j as int));
            assert(hit_b == pb(i as int, j as int));
            if hit_c {
                c = c + 1;
            }
            if hit_p {
                p = p + 1;
            }
            if hit_n {
                nk = nk + 1;
            }
            if hit_r {
                sr = sr + 1;
            }
            if hit_b {
                sb = sb + 1;
            }
            j = j + 1;
        }
        i = i + 1;
    }
    assert(c as nat == class_pairs(es) && p as nat == person_pairs(es) && nk as nat == notes_pairs(es));
    let total = c + p + nk + sr + sb;
    PageConflictCounts {
        classification: c,
        personal: p,
        personal_classification: nk,
        series_room: sr,
        series_back_to_back: sb,
        total,
    }
}

/// None of the characters of `s` is `;`, `,` or `|`.
pub open spec fn free_of_name_separators(s: Seq<char>) -> bool {
    forall|i: int| 0 <= i < s.len() ==> #[trigger] s[i] != ';' && s[i] != ',' && s[i] != '|'
}

proof fn lemma_split_append(s: Seq<char>, t: Seq<char>)
    requires
        free_of_name_separators(t),
    ensures
        split_any(s + t, name_separators()).len() == split_any(s, name_separators()).len(),
        split_any(s + t, name_separators()) == split_any(s, name_separators()).update(
            split_any(s, name_separators()).len() - 1,
            split_any(s, name_separators()).last() + t,
        ),
    decreases t.len(),
{
    let seps = name_separators();
    crate::text::lemma_split_any_nonempty(s, seps);
    if t.len() == 0 {
        assert(s + t =~= s);
        let p = split_any(s, seps);
        assert(p.last() + t =~= p.last());
        assert(p.update(p.len() - 1, p.last() + t) =~= p);
    } else {
        let t0 = t.drop_last();
        assert(free_of_name_separators(t0));
        lemma_split_append(s, t0);
        assert((s + t).drop_last() =~= s + t0);
        assert((s + t).last() == t.last());
        assert(!seps.contains(t.last())) by {
            if seps.contains(t.last()) {
                let k = choose|k: int| 0 <= k < seps.len() && seps[k] == t.last();
                assert(t[t.len() - 1] == t.last());
            }
        }
        let p = split_any(s, seps);
        let q = split_any(s + t0, seps);
        assert(q.last() == p.last() + t0);
        assert(q.last().push(t.last()) =~= p.last() + t);
        assert(q.update(q.len() - 1, q.last().push(t.last())) =~= p.update(p.len() - 1, p.last() + t));
    }
}

/// A field with none of `;`, `,` and `|` is one name: itself, trimmed
/// (none when that leaves nothing).
pub proof fn law_page_names_unsplit(s: Seq<char>)
    requires
        free_of_name_separators(s),
    ensures
        trim_spec(s).len() > 0 ==> page_names(s) == seq![trim_spec(s)],
        trim_spec(s).len() == 0 ==> page_names(s) == Seq::<Seq<char>>::empty(),
{
    lemma_split_append(Seq::empty(), s);
    assert(Seq::<char>::empty() + s =~= s);
    let p = split_any(s, name_separators());
    assert(split_any(Seq::<char>::empty(), name_separators()) == seq![Seq::<char>::empty()]);
    assert(p =~= seq![s]);
    assert(trimmed_pieces(p, 0) == Seq::<Seq<char>>::empty());
}

/// Each of `;`, `,` and `|` separates names: two names joined by one of
/// them are read as the two names.
pub proof fn law_page_names_split_at_separators(a: Seq<char>, b: Seq<char>, c: char)
    requires
        c == ';' || c == ',' || c == '|',
        free_of_name_separators(a),
        free_of_name_separators(b),
        trim_spec(a) == a,
        trim_spec(b) == b,
        a.len() > 0,
        b.len() > 0,
    ensures
        page_names(a + seq![c] + b) == seq![a, b],
{
    let seps = name_separators();
    lemma_split_append(Seq::empty(), a);
    assert(Seq::<char>::empty() + a =~= a);
    assert(split_any(Seq::<char>::empty(), seps) == seq![Seq::<char>::empty()]);
    assert(split_any(a, seps) =~= seq![a]);
    let ac = a.push(c);
    assert(ac.drop_last() =~= a);
    assert(seps.contains(c)) by {
        if c == ';' {
            assert(seps[0] == c);
        } else if c == ',' {
            assert(seps[1] == c);
        } else {
            assert(seps[2] == c);
        }
    }
    assert(split_any(ac, seps) =~= seq![a, Seq::<char>::empty()]);
    lemma_split_append(ac, b);
    assert(a + seq![c] + b =~= ac + b);
    let p = split_any(a + seq![c] + b, seps);
    assert(p =~= seq![a, b]);
    assert(p[0] == a && p[1] == b);
    assert(trimmed_pieces(p, 0) == Seq::<Seq<char>>::empty());
    assert(trimmed_pieces(p, 1) =~= seq![a]);
    assert(trimmed_pieces(p, 2) =~= seq![a, b]);
}

proof fn lemma_split_on_append(s: Seq<char>, t: Seq<char>)
    requires
        forall|i: int| 0 <= i < t.len() ==> #[trigger] t[i] != ';',
    ensures
        split_on(s + t, ';').len() == split_on(s, ';').len(),
        split_on(s + t, ';') == split_on(s, ';').update(split_on(s, ';').len() - 1, split_on(s, ';').last() + t),
    decreases t.len(),
{
    crate::text::lemma_split_on_nonempty(s, ';');
    if t.len() == 0 {
        assert(s + t =~= s);
        let p = split_on(s, ';');
        assert(p.last() + t =~= p.last());
        assert(p.update(p.len() - 1, p.last() + t) =~= p);
    } else {
        let t0 = t.drop_last();
        lemma_split_on_append(s, t0);
        assert((s + t).drop_last() =~= s + t0);
        assert((s + t).last() == t[t.len() - 1]);
        let p = split_on(s, ';');
        let q = split_on(s + t0, ';');
        assert(q.last().push(t.last()) =~= p.last() + t);
        assert(q.update(q.len() - 1, q.last().push(t.last())) =~= p.update(p.len() - 1, p.last() + t));
    }
}

/// The classification field of a session on the web page is split at `;`
/// only: two codes joined by `;` are read as the two codes, and a field
/// without `;` is one code, itself trimmed (none when that leaves nothing).
pub proof fn law_page_codes_split_at_semicolons(s: PageSession, a: Seq<char>, b: Seq<char>)
    requires
        forall|i: int| 0 <= i < a.len() ==> #[trigger] a[i] != ';',
        forall|i: int| 0 <= i < b.len() ==> #[trigger] b[i] != ';',
        trim_spec(a) == a,
        trim_spec(b) == b,
        a.len() > 0,
        b.len() > 0,
    ensures
        s.classification@ == a + seq![';'] + b ==> page_codes(s) == seq![a, b],
        s.classification@ == a ==> page_codes(s) == seq![a],
{
    lemma_split_on_append(Seq::empty(), a);
    assert(Seq::<char>::empty() + a =~= a);
    assert(split_on(Seq::<char>::empty(), ';') == seq![Seq::<char>::empty()]);
    assert(split_on(a, ';') =~= seq![a]);
    assert(trimmed_pieces(split_on(a, ';'), 0) == Seq::<Seq<char>>::empty());
    assert(trimmed_pieces(split_on(a, ';'), 1) =~= seq![a]);
    let ac = a.push(';');
    assert(ac.drop_last() =~= a);
    assert(split_on(ac, ';') =~= seq![a, Seq::<char>::empty()]);
    lemma_split_on_append(ac, b);
    assert(a + seq![';'] + b =~= ac + b);
    let p = split_on(a + seq![';'] + b, ';');
    assert(p =~= seq![a, b]);
    assert(p[0] == a && p[1] == b);
    assert(trimmed_pieces(p, 0) == Seq::<Seq<char>>::empty());
    assert(trimmed_pieces(p, 1) =~= seq![a]);
    assert(trimmed_pieces(p, 2) =~= seq![a, b]);
}

} // verus!
