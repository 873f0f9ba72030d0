//! Grouping contributed lectures into minisymposia of four ("CL groups").
use vstd::prelude::*;
use crate::model::{ContributedLecture, Minisymposium, slots};
use crate::text::{
    chars_of, contains_text, has_substring, i32_text, int_text, lowercase_of, string_of, to_lowercase, trim_spec,
    trim_text,
};
use crate::topics::{topic_overlap, topic_words};

verus! {

// ===========================================================================
// Text assembly
// ===========================================================================

/// The parts joined with `sep` between consecutive parts (`[..].join(sep)`).
pub open spec fn join_spec(parts: Seq<Seq<char>>, sep: Seq<char>) -> Seq<char>
    decreases parts.len(),
{
    if parts.len() == 0 {
        Seq::empty()
    } else if parts.len() == 1 {
        parts[0]
    } else {
        join_spec(parts.drop_last(), sep) + sep + parts.last()
    }
}

/// Appends the characters of `w` to `v`.
pub fn append_chars(v: &mut Vec<char>, w: &Vec<char>)
    ensures
        final(v)@ == old(v)@ + w@,
{
    let ghost start = v@;
    let mut i: usize = 0;
    while i < w.len()
        invariant
            i <= w@.len(),
            v@ == start + w@.take(i as int),
        decreases w.len() - i,
    {
        v.push(w[i]);
        i = i + 1;
        assert(v@ =~= start + w@.take(i as int));
    }
    assert(w@.take(w@.len() as int) =~= w@);
}

/// The views of a sequence of strings.
pub open spec fn views(parts: Seq<String>) -> Seq<Seq<char>> {
    parts.map_values(|s: String| s@)
}

/// The strings of `parts` joined with `sep`.
pub fn join_strings(parts: &Vec<String>, sep: &str) -> (r: String)
    ensures
        r@ == join_spec(views(parts@), sep@),
{
    let sep_chars = chars_of(sep);
    let mut out: Vec<char> = Vec::new();
    let mut i: usize = 0;
    while i < parts.len()
        invariant
            i <= parts@.len(),
            sep_chars@ == sep@,
            out@ == join_spec(views(parts@.take(i as int)), sep@),
        decreases parts.len() - i,
    {
        let piece = chars_of(parts[i].as_str());
        let ghost prev = views(parts@.take(i as int));
        let ghost next = views(parts@.take(i + 1));
        assert(next.drop_last() =~= prev);
        assert(next.last() == parts@[i as int]@);
        if i > 0 {
            append_chars(&mut out, &sep_chars);
        } else {
            assert(next.len() == 1);
        }
        append_chars(&mut out, &piece);
        i = i + 1;
        proof {
            if i == 1 {
                assert(out@ =~= next[0]);
            }
        }
    }
    assert(parts@.take(parts@.len() as int) =~= parts@);
    string_of(&out)
}

// ===========================================================================
// Building a CL minisymposium
// ===========================================================================

/// The lecture indices of `group` that name lectures.
pub open spec fn present(lectures: Seq<ContributedLecture>, group: Seq<usize>) -> Seq<usize> {
    group.filter(|i: usize| i < lectures.len())
}

/// The code `c` is a classification of a lecture of `group`.
pub open spec fn group_has_code(lectures: Seq<ContributedLecture>, group: Seq<usize>, c: i32) -> bool {
    exists|k: int, j: int|
        0 <= k < group.len() && group[k] < lectures.len() && 0 <= j < lectures[group[k] as int].classification@.len()
            && #[trigger] lectures[group[k] as int].classification@[j] == c
}

/// The texts `f(lecture)` of the lectures of `group` (in group order) that
/// name lectures, leaving out empty ones.
pub open spec fn nonempty_texts(
    lectures: Seq<ContributedLecture>,
    group: Seq<usize>,
    f: spec_fn(ContributedLecture) -> Seq<char>,
) -> Seq<Seq<char>>
    decreases group.len(),
{
    if group.len() == 0 {
        Seq::empty()
    } else {
        let prev = nonempty_texts(lectures, group.drop_last(), f);
        let i = group.last();
        if i < lectures.len() && f(lectures[i as int]).len() > 0 {
            prev.push(f(lectures[i as int]))
        } else {
            prev
        }
    }
}

/// The values `f(lecture)` of the lectures of `group` that name lectures.
pub open spec fn lecture_values<T>(lectures: Seq<ContributedLecture>, group: Seq<usize>, f: spec_fn(ContributedLecture) -> T) -> Seq<T>
    decreases group.len(),
{
    if group.len() == 0 {
        Seq::empty()
    } else {
        let prev = lecture_values(lectures, group.drop_last(), f);
        let i = group.last();
        if i < lectures.len() {
            prev.push(f(lectures[i as int]))
        } else {
            prev
        }
    }
}

/// The title of a CL group: `"CL Group <id> - "` then the non-empty titles
/// joined with `" | "`.
pub open spec fn cl_title(lectures: Seq<ContributedLecture>, group: Seq<usize>, id: i32) -> Seq<char> {
    "CL Group "@ + int_text(id as int) + " - "@ + join_spec(
        nonempty_texts(lectures, group, |l: ContributedLecture| l.title@),
        " | "@,
    )
}

/// `m` is the minisymposium made from the lectures `group` with number `id`:
/// the speakers and lecture ids of the lectures in group order, the distinct
/// classification codes in increasing order, the non-empty notes joined with
/// `" | "`, no organizers, no series.
pub open spec fn is_cl_minisymposium(m: Minisymposium, lectures: Seq<ContributedLecture>, group: Seq<usize>, id: i32) -> bool {
    &&& m.id == id
    &&& m.title@ == cl_title(lectures, group, id)
    &&& m.notes@ == join_spec(nonempty_texts(lectures, group, |l: ContributedLecture| l.notes@), " | "@)
    &&& m.organizers@.len() == 0
    &&& views(m.speakers@) == lecture_values(lectures, group, |l: ContributedLecture| l.speaker@)
    &&& m.cl_lecture_ids@ == lecture_values(lectures, group, |l: ContributedLecture| l.id)
    &&& (forall|a: int, b: int| 0 <= a < b < m.classification@.len() ==> m.classification@[a] < m.classification@[b])
    &&& (forall|c: i32| #[trigger] m.classification@.contains(c) <==> group_has_code(lectures, group, c))
    &&& m.series_key is None
    &&& m.part_number is None
    &&& m.is_cl_minisymposium
}

/// Inserts `c` into the strictly increasing `v` unless it is already there.
fn insert_sorted_unique(v: &mut Vec<i32>, c: i32)
    requires
        forall|a: int, b: int| 0 <= a < b < old(v)@.len() ==> old(v)@[a] < old(v)@[b],
    ensures
        forall|a: int, b: int| 0 <= a < b < final(v)@.len() ==> final(v)@[a] < final(v)@[b],
        forall|x: i32| #[trigger] final(v)@.contains(x) <==> (old(v)@.contains(x) || x == c),
{
    let mut p: usize = 0;
    while p < v.len() && v[p] < c
        invariant
            p <= v@.len(),
            forall|a: int| 0 <= a < p ==> v@[a] < c,
        decreases v.len() - p,
    {
        p = p + 1;
    }
    if p < v.len() && v[p] == c {
        return;
    }
    let ghost before = v@;
    v.insert(p, c);
    assert(v@ =~= before.insert(p as int, c));
    proof {
        assert forall|a: int, b: int| 0 <= a < b < v@.len() implies v@[a] < v@[b] by {
            if b < p {
            } else if a < p && b == p {
            } else if a < p && b > p {
                assert(v@[b] == before[b - 1]);
                assert(before[p as int] > c);
                if b - 1 > p {
                    assert(before[p as int] < before[b - 1]);
                }
            } else if a == p {
                assert(v@[b] == before[b - 1]);
                assert(before[p as int] > c);
                if b - 1 > p {
                    assert(before[p as int] < before[b - 1]);
                }
            } else {
                assert(v@[a] == before[a - 1] && v@[b] == before[b - 1]);
            }
        }
        assert forall|x: i32| #[trigger] v@.contains(x) <==> (before.contains(x) || x == c) by {
            if v@.contains(x) {
                let k = choose|k: int| 0 <= k < v@.len() && v@[k] == x;
                if k < p {
                    assert(before[k] == x);
                } else if k > p {
                    assert(before[k - 1] == x);
                }
            }
            if before.contains(x) {
                let k = choose|k: int| 0 <= k < before.len() && before[k] == x;
                if k < p {
                    assert(v@[k] == x);
                } else {
                    assert(v@[k + 1] == x);
                }
            }
            if x == c {
                assert(v@[p as int] == c);
            }
        }
    }
}

// ===========================================================================
// The preprocessor
// ===========================================================================

/// Groups contributed lectures into minisymposia of (at most) four lectures.
pub struct CLPreprocessor {
    group_size: usize,
}

impl CLPreprocessor {
    /// The number of lectures in a full group.
    pub closed spec fn size(&self) -> usize {
        self.group_size
    }

    /// A preprocessor that forms groups of four.
    pub fn new() -> (p: Self)
        ensures
            p.size() == 4,
    {
        CLPreprocessor { group_size: 4 }
    }

    /// The minisymposium number `id` made from the lectures at the indices
    /// `group` (indices outside `lectures` are passed over).
    pub fn create_cl_minisymposium(&self, lectures: &Vec<ContributedLecture>, group: &Vec<usize>, id: i32) -> (m: Minisymposium)
        ensures
            is_cl_minisymposium(m, lectures@, group@, id),
    {
        let mut classes: Vec<i32> = Vec::new();
        let mut speakers: Vec<String> = Vec::new();
        let mut ids: Vec<i32> = Vec::new();
        let mut notes_parts: Vec<String> = Vec::new();
        let mut title_parts: Vec<String> = Vec::new();
        let mut k: usize = 0;
        while k < group.len()
            invariant
                k <= group@.len(),
                forall|a: int, b: int| 0 <= a < b < classes@.len() ==> classes@[a] < classes@[b],
                forall|c: i32| #[trigger] classes@.contains(c) <==> group_has_code(lectures@, group@.take(k as int), c),
                views(speakers@) == lecture_values(lectures@, group@.take(k as int), |l: ContributedLecture| l.speaker@),
                ids@ == lecture_values(lectures@, group@.take(k as int), |l: ContributedLecture| l.id),
                views(notes_parts@) == nonempty_texts(lectures@, group@.take(k as int), |l: ContributedLecture| l.notes@),
                views(title_parts@) == nonempty_texts(lectures@, group@.take(k as int), |l: ContributedLecture| l.title@),
            decreases group.len() - k,
        {
            let idx = group[k];
            let ghost before = group@.take(k as int);
            let ghost after = group@.take(k + 1);
            assert(after.drop_last() =~= before);
            assert(after.last() == idx);
            if idx < lectures.len() {
                let lecture = &lectures[idx];
                let ghost old_classes = classes@;
                let mut j: usize = 0;
                while j < lecture.classification.len()
                    invariant
                        idx < lectures@.len(),
                        *lecture == lectures@[idx as int],
                        j <= lecture.classification@.len(),
                        forall|a: int, b: int| 0 <= a < b < classes@.len() ==> classes@[a] < classes@[b],
                        forall|c: i32| #[trigger] classes@.contains(c) <==> (old_classes.contains(c)
                            || exists|t: int| 0 <= t < j && lecture.classification@[t] == c),
                    decreases lecture.classification.len() - j,
                {
                    insert_sorted_unique(&mut classes, lecture.classification[j]);
                    j = j + 1;
                }
                proof {
                    assert forall|c: i32| #[trigger] classes@.contains(c) <==> group_has_code(lectures@, after, c) by {
                        if group_has_code(lectures@, after, c) {
                            let (kk, jj) = choose|kk: int, jj: int|
                                0 <= kk < after.len() && after[kk] < lectures@.len() && 0 <= jj < lectures@[after[kk] as int].classification@.len()
                                    && #[trigger] lectures@[after[kk] as int].classification@[jj] == c;
                            if kk < k {
                                assert(before[kk] == after[kk]);
                                assert(group_has_code(lectures@, before, c));
                            } else {
                                assert(lecture.classification@[jj] == c);
                            }
                        }
                        if old_classes.contains(c) {
                            let (kk, jj) = choose|kk: int, jj: int|
                                0 <= kk < before.len() && before[kk] < lectures@.len() && 0 <= jj < lectures@[before[kk] as int].classification@.len()
                                    && #[trigger] lectures@[before[kk] as int].classification@[jj] == c;
                            assert(after[kk] == before[kk]);
                            assert(group_has_code(lectures@, after, c));
                        }
                        if exists|t: int| 0 <= t < j && lecture.classification@[t] == c {
                            let t = choose|t: int| 0 <= t < j && lecture.classification@[t] == c;
                            assert(after[k as int] == idx);
                            assert(lectures@[after[k as int] as int].classification@[t] == c);
                        }
                    }
                }
                let ghost sp = speakers@;
                speakers.push(lecture.speaker.clone());
                assert(views(speakers@) =~= views(sp).push(lecture.speaker@));
                ids.push(lecture.id);
                if !lecture.notes.as_str().is_empty() {
                    let ghost np = notes_parts@;
                    notes_parts.push(lecture.notes.clone());
                    assert(views(notes_parts@) =~= views(np).push(lecture.notes@));
                }
                if !lecture.title.as_str().is_empty() {
                    let ghost tp = title_parts@;
                    title_parts.push(lecture.title.clone());
                    assert(views(title_parts@) =~= views(tp).push(lecture.title@));
                }
            } else {
                assert forall|c: i32| #[trigger] classes@.contains(c) <==> group_has_code(lectures@, after, c) by {
                    if group_has_code(lectures@, after, c) {
                        let (kk, jj) = choose|kk: int, jj: int|
                            0 <= kk < after.len() && after[kk] < lectures@.len() && 0 <= jj < lectures@[after[kk] as int].classification@.len()
                                && #[trigger] lectures@[after[kk] as int].classification@[jj] == c;
                        assert(kk < k);
                        assert(before[kk] == after[kk]);
                        assert(group_has_code(lectures@, before, c));
                    }
                    if group_has_code(lectures@, before, c) {
                        let (kk, jj) = choose|kk: int, jj: int|
                            0 <= kk < before.len() && before[kk] < lectures@.len() && 0 <= jj < lectures@[before[kk] as int].classification@.len()
                                && #[trigger] lectures@[before[kk] as int].classification@[jj] == c;
                        assert(after[kk] == before[kk]);
                    }
                }
            }
            k = k + 1;
        }
        assert(group@.take(group@.len() as int) =~= group@);
        let mut title: Vec<char> = chars_of("CL Group ");
        let id_text = i32_text(id);
        append_chars(&mut title, &chars_of(id_text.as_str()));
        append_chars(&mut title, &chars_of(" - "));
        let joined_titles = join_strings(&title_parts, " | ");
        append_chars(&mut title, &chars_of(joined_titles.as_str()));
        let notes = join_strings(&notes_parts, " | ");
        Minisymposium {
            id,
            title: string_of(&title),
            notes,
            organizers: Vec::new(),
            speakers,
            classification: classes,
            series_key: None,
            part_number: None,
            is_cl_minisymposium: true,
            cl_lecture_ids: ids,
        }
    }
}

// ===========================================================================
// Speakers and keywords
// ===========================================================================

/// A lecture's speaker as compared: trimmed, then lower-cased.
pub open spec fn speaker_key(l: ContributedLecture) -> Seq<char> {
    lowercase_of(trim_spec(l.speaker@))
}

/// A lecture's notes keyword: its notes trimmed, then lower-cased.
pub open spec fn notes_key(l: ContributedLecture) -> Seq<char> {
    lowercase_of(trim_spec(l.notes@))
}

/// The lecture at position `p` of `indices` is kept: its speaker is empty,
/// or no lecture before it in `indices` has the same speaker.
pub open spec fn keeps_speaker(lectures: Seq<ContributedLecture>, indices: Seq<usize>, p: int) -> bool {
    let k = speaker_key(lectures[indices[p] as int]);
    k.len() == 0 || forall|q: int| 0 <= q < p ==> #[trigger] speaker_key(lectures[indices[q] as int]) != k
}

/// The kept indices among the first `end` of `indices`, in order.
pub open spec fn speakers_filtered(lectures: Seq<ContributedLecture>, indices: Seq<usize>, end: nat) -> Seq<usize>
    decreases end,
{
    if end == 0 {
        Seq::empty()
    } else {
        let prev = speakers_filtered(lectures, indices, (end - 1) as nat);
        if keeps_speaker(lectures, indices, end - 1) {
            prev.push(indices[end - 1])
        } else {
            prev
        }
    }
}

/// The characters of `s` trimmed, then lower-cased.
fn trimmed_lowercase(s: &String) -> (r: String)
    ensures
        r@ == lowercase_of(trim_spec(s@)),
{
    let t = trim_text(s.as_str());
    to_lowercase(t.as_str())
}

/// Whether `v` holds a string with the characters of `s`.
fn holds_string(v: &Vec<String>, s: &String) -> (r: bool)
    ensures
        r == exists|i: int| 0 <= i < v@.len() && #[trigger] v@[i]@ == s@,
{
    let mut i: usize = 0;
    while i < v.len()
        invariant
            i <= v@.len(),
            forall|j: int| 0 <= j < i ==> #[trigger] v@[j]@ != s@,
        decreases v.len() - i,
    {
        if v[i] == *s {
            return true;
        }
        i = i + 1;
    }
    false
}

impl CLPreprocessor {
    /// The indices whose lecture has an empty speaker or a speaker that no
    /// earlier index's lecture has (speakers compared trimmed and
    /// lower-cased), in order.
    pub fn filter_duplicate_speakers(&self, lectures: &Vec<ContributedLecture>, indices: &Vec<usize>) -> (r: Vec<usize>)
        requires
            forall|i: int| 0 <= i < indices@.len() ==> #[trigger] indices@[i] < lectures@.len(),
        ensures
            r@ == speakers_filtered(lectures@, indices@, indices@.len()),
    {
        let ghost ls = lectures@;
        let ghost ix = indices@;
        let mut filtered: Vec<usize> = Vec::new();
        let mut seen: Vec<String> = Vec::new();
        let mut p: usize = 0;
        while p < indices.len()
            invariant
                ls == lectures@,
                ix == indices@,
                p <= ix.len(),
                forall|i: int| 0 <= i < ix.len() ==> #[trigger] ix[i] < ls.len(),
                filtered@ == speakers_filtered(ls, ix, p as nat),
                forall|i: int| 0 <= i < seen@.len() ==> (#[trigger] seen@[i])@.len() > 0 && exists|q: int|
                    0 <= q < p && speaker_key(ls[ix[q] as int]) == seen@[i]@,
                forall|q: int| 0 <= q < p && (#[trigger] key_at(ls, ix, q)).len() > 0 ==> exists|i: int|
                    0 <= i < seen@.len() && seen@[i]@ == speaker_key(ls[ix[q] as int]),
            decreases indices.len() - p,
        {
            let idx = indices[p];
            let speaker = trimmed_lowercase(&lectures[idx].speaker);
            let ghost k = speaker@;
            assert(k == speaker_key(ls[ix[p as int] as int]));
            let empty = speaker.as_str().is_empty();
            let known = holds_string(&seen, &speaker);
            proof {
                lemma_keeps_speaker(ls, ix, p as int, seen@, empty, known);
            }
            let ghost old_seen = seen@;
            if empty || !known {
                filtered.push(idx);
                if !empty {
                    seen.push(speaker);
                }
            }
            proof {
                assert forall|i: int| 0 <= i < seen@.len() implies (#[trigger] seen@[i])@.len() > 0 && exists|q: int|
                    0 <= q < p + 1 && speaker_key(ls[ix[q] as int]) == seen@[i]@ by {
                    if i < old_seen.len() {
                        assert(seen@[i] == old_seen[i]);
                    } else {
                        assert(speaker_key(ls[ix[p as int] as int]) == seen@[i]@);
                    }
                }
                assert forall|q: int| 0 <= q < p + 1 && (#[trigger] key_at(ls, ix, q)).len() > 0 implies exists|i: int|
                    0 <= i < seen@.len() && seen@[i]@ == speaker_key(ls[ix[q] as int]) by {
                    if q < p {
                        assert(key_at(ls, ix, q).len() > 0);
                        let i = choose|i: int| 0 <= i < old_seen.len() && old_seen[i]@ == speaker_key(ls[ix[q] as int]);
                        assert(seen@[i] == old_seen[i]);
                    } else if known {
                        let i = choose|i: int| 0 <= i < old_seen.len() && #[trigger] old_seen[i]@ == k;
                        assert(seen@[i] == old_seen[i]);
                    } else {
                        assert(seen@[old_seen.len() as int]@ == k);
                    }
                }
            }
            p = p + 1;
        }
        filtered
    }
}

/// The speaker key of the lecture at position `q` of `ix`.
pub open spec fn key_at(ls: Seq<ContributedLecture>, ix: Seq<usize>, q: int) -> Seq<char> {
    speaker_key(ls[ix[q] as int])
}

proof fn lemma_keeps_speaker(
    ls: Seq<ContributedLecture>,
    ix: Seq<usize>,
    p: int,
    seen: Seq<String>,
    empty: bool,
    known: bool,
)
    requires
        0 <= p < ix.len(),
        empty == (speaker_key(ls[ix[p] as int]).len() == 0),
        known == exists|i: int| 0 <= i < seen.len() && #[trigger] seen[i]@ == speaker_key(ls[ix[p] as int]),
        forall|i: int| 0 <= i < seen.len() ==> (#[trigger] seen[i])@.len() > 0 && exists|q: int|
            0 <= q < p && speaker_key(ls[ix[q] as int]) == seen[i]@,
        forall|q: int| 0 <= q < p && (#[trigger] key_at(ls, ix, q)).len() > 0 ==> exists|i: int|
            0 <= i < seen.len() && seen[i]@ == speaker_key(ls[ix[q] as int]),
    ensures
        keeps_speaker(ls, ix, p) == (empty || !known),
{
    let k = speaker_key(ls[ix[p] as int]);
    if !empty && known {
        let i = choose|i: int| 0 <= i < seen.len() && #[trigger] seen[i]@ == k;
        assert(seen[i]@.len() > 0);
        let q = choose|q: int| 0 <= q < p && speaker_key(ls[ix[q] as int]) == seen[i]@;
        assert(!keeps_speaker(ls, ix, p));
    }
    if !empty && !known {
        assert forall|q: int| 0 <= q < p implies #[trigger] speaker_key(ls[ix[q] as int]) != k by {
            if speaker_key(ls[ix[q] as int]) == k {
                assert(key_at(ls, ix, q).len() > 0);
                let i = choose|i: int| 0 <= i < seen.len() && seen[i]@ == speaker_key(ls[ix[q] as int]);
                assert(seen[i]@ == k);
            }
        }
    }
}

// ===========================================================================
// Grouping by notes keyword
// ===========================================================================

/// The indices `i < end` of the lectures not yet used whose keyword is `kw`,
/// in order.
pub open spec fn keyword_indices(lectures: Seq<ContributedLecture>, used: Seq<bool>, kw: Seq<char>, end: nat) -> Seq<usize>
    decreases end,
{
    if end == 0 {
        Seq::empty()
    } else {
        let prev = keyword_indices(lectures, used, kw, (end - 1) as nat);
        if !used[end - 1] && notes_key(lectures[end - 1]) == kw {
            prev.push((end - 1) as usize)
        } else {
            prev
        }
    }
}

/// Lecture `i` is not yet used, has a keyword, and no lecture before it
/// that is not yet used has the same keyword.
pub open spec fn first_with_keyword(lectures: Seq<ContributedLecture>, used: Seq<bool>, i: int) -> bool {
    &&& !used[i]
    &&& notes_key(lectures[i]).len() > 0
    &&& forall|j: int| 0 <= j < i ==> !(!used[j] && #[trigger] notes_key(lectures[j]) == notes_key(lectures[i]))
}

/// The consecutive groups of four from the front of `s` (fewer than four
/// left over form no group).
pub open spec fn groups_of_four(s: Seq<usize>) -> Seq<Seq<usize>> {
    Seq::new(s.len() / 4, |m: int| s.subrange(4 * m, 4 * m + 4))
}

/// The groups formed for keyword `kw`: with at least two lectures of that
/// keyword, the groups of four of those lectures after dropping repeated
/// speakers.
pub open spec fn keyword_groups(lectures: Seq<ContributedLecture>, used: Seq<bool>, kw: Seq<char>) -> Seq<Seq<usize>> {
    let idx = keyword_indices(lectures, used, kw, lectures.len());
    if idx.len() < 2 {
        Seq::empty()
    } else {
        groups_of_four(speakers_filtered(lectures, idx, idx.len()))
    }
}

/// The groups of the keywords whose first lecture is among the first `end`,
/// keyword by keyword.
pub open spec fn notes_groups_upto(lectures: Seq<ContributedLecture>, used: Seq<bool>, end: nat) -> Seq<Seq<usize>>
    decreases end,
{
    if end == 0 {
        Seq::empty()
    } else {
        notes_groups_upto(lectures, used, (end - 1) as nat) + if first_with_keyword(lectures, used, end - 1) {
            keyword_groups(lectures, used, notes_key(lectures[end - 1]))
        } else {
            Seq::empty()
        }
    }
}

/// All groups formed by notes keyword, keywords in order of their first
/// lecture.
pub open spec fn notes_groups(lectures: Seq<ContributedLecture>, used: Seq<bool>) -> Seq<Seq<usize>> {
    notes_groups_upto(lectures, used, lectures.len())
}

/// Lecture `j` is in one of the groups.
pub open spec fn in_groups(groups: Seq<Seq<usize>>, j: usize) -> bool {
    exists|g: int, k: int| 0 <= g < groups.len() && 0 <= k < groups[g].len() && #[trigger] groups[g][k] == j
}

proof fn lemma_notes_groups_grow(lectures: Seq<ContributedLecture>, used: Seq<bool>, a: nat, b: nat)
    requires
        a <= b,
    ensures
        notes_groups_upto(lectures, used, a).len() <= notes_groups_upto(lectures, used, b).len(),
    decreases b,
{
    if a < b {
        lemma_notes_groups_grow(lectures, used, a, (b - 1) as nat);
    }
}

proof fn lemma_keyword_indices_below(lectures: Seq<ContributedLecture>, used: Seq<bool>, kw: Seq<char>, end: nat)
    ensures
        forall|i: int| 0 <= i < keyword_indices(lectures, used, kw, end).len() ==> #[trigger] keyword_indices(
            lectures,
            used,
            kw,
            end,
        )[i] < end,
    decreases end,
{
    if end > 0 {
        lemma_keyword_indices_below(lectures, used, kw, (end - 1) as nat);
        let prev = keyword_indices(lectures, used, kw, (end - 1) as nat);
        let cur = keyword_indices(lectures, used, kw, end);
        assert forall|i: int| 0 <= i < cur.len() implies #[trigger] cur[i] < end by {
            if i < prev.len() {
                assert(cur[i] == prev[i]);
            }
        }
    }
}

proof fn lemma_speakers_filtered_members(lectures: Seq<ContributedLecture>, indices: Seq<usize>, end: nat)
    requires
        end <= indices.len(),
    ensures
        forall|i: int| 0 <= i < speakers_filtered(lectures, indices, end).len() ==> indices.contains(
            #[trigger] speakers_filtered(lectures, indices, end)[i],
        ),
    decreases end,
{
    if end > 0 {
        lemma_speakers_filtered_members(lectures, indices, (end - 1) as nat);
        let prev = speakers_filtered(lectures, indices, (end - 1) as nat);
        let cur = speakers_filtered(lectures, indices, end);
        assert forall|i: int| 0 <= i < cur.len() implies indices.contains(#[trigger] cur[i]) by {
            if i < prev.len() {
                assert(cur[i] == prev[i]);
            } else {
                assert(cur[i] == indices[end - 1]);
            }
        }
    }
}

/// `out` holds, in order, the minisymposia made from the groups `groups`,
/// numbered from `id0`.
pub open spec fn made_from(out: Seq<Minisymposium>, lectures: Seq<ContributedLecture>, groups: Seq<Seq<usize>>, id0: int) -> bool {
    &&& out.len() == groups.len()
    &&& forall|g: int| 0 <= g < out.len() ==> is_cl_minisymposium(#[trigger] out[g], lectures, groups[g], (id0 + g) as i32)
}

/// `used` marks what `used0` marked and every lecture of the groups.
pub open spec fn marks(used: Seq<bool>, used0: Seq<bool>, groups: Seq<Seq<usize>>) -> bool {
    &&& used.len() == used0.len()
    &&& forall|j: int| 0 <= j < used.len() ==> #[trigger] used[j] == (used0[j] || in_groups(groups, j as usize))
}

proof fn lemma_in_groups_push(groups: Seq<Seq<usize>>, grp: Seq<usize>, j: usize)
    ensures
        in_groups(groups.push(grp), j) == (in_groups(groups, j) || grp.contains(j)),
{
    let gs = groups.push(grp);
    if in_groups(gs, j) {
        let (g, k) = choose|g: int, k: int| 0 <= g < gs.len() && 0 <= k < gs[g].len() && #[trigger] gs[g][k] == j;
        if g < groups.len() {
            assert(groups[g][k] == j);
        } else {
            assert(grp[k] == j);
        }
    }
    if in_groups(groups, j) {
        let (g, k) = choose|g: int, k: int| 0 <= g < groups.len() && 0 <= k < groups[g].len() && #[trigger] groups[g][k] == j;
        assert(gs[g][k] == j);
    }
    if grp.contains(j) {
        let k = choose|k: int| 0 <= k < grp.len() && grp[k] == j;
        assert(gs[groups.len() as int][k] == j);
    }
}

/// The notes keyword of every lecture.
fn notes_keys(lectures: &Vec<ContributedLecture>) -> (keys: Vec<String>)
    ensures
        keys@.len() == lectures@.len(),
        forall|i: int| 0 <= i < keys@.len() ==> #[trigger] keys@[i]@ == notes_key(lectures@[i]),
{
    let mut keys: Vec<String> = Vec::new();
    let mut i: usize = 0;
    while i < lectures.len()
        invariant
            i <= lectures@.len(),
            keys@.len() == i,
            forall|j: int| 0 <= j < i ==> #[trigger] keys@[j]@ == notes_key(lectures@[j]),
        decreases lectures.len() - i,
    {
        keys.push(trimmed_lowercase(&lectures[i].notes));
        i = i + 1;
    }
    keys
}

/// The indices of the lectures not yet used whose keyword is that of
/// lecture `i`, in order.
fn keyword_members(keys: &Vec<String>, used0: &Vec<bool>, i: usize, lectures: &Vec<ContributedLecture>) -> (r: Vec<usize>)
    requires
        keys@.len() == lectures@.len(),
        used0@.len() == lectures@.len(),
        i < lectures@.len(),
        forall|j: int| 0 <= j < keys@.len() ==> #[trigger] keys@[j]@ == notes_key(lectures@[j]),
    ensures
        r@ == keyword_indices(lectures@, used0@, notes_key(lectures@[i as int]), lectures@.len()),
{
    let mut r: Vec<usize> = Vec::new();
    let mut j: usize = 0;
    while j < keys.len()
        invariant
            keys@.len() == lectures@.len(),
            used0@.len() == lectures@.len(),
            i < lectures@.len(),
            forall|j: int| 0 <= j < keys@.len() ==> #[trigger] keys@[j]@ == notes_key(lectures@[j]),
            j <= keys@.len(),
            r@ == keyword_indices(lectures@, used0@, notes_key(lectures@[i as int]), j as nat),
        decreases keys.len() - j,
    {
        assert(keys@[j as int]@ == notes_key(lectures@[j as int]));
        assert(keys@[i as int]@ == notes_key(lectures@[i as int]));
        if !used0[j] && keys[j] == keys[i] {
            r.push(j);
        }
        j = j + 1;
    }
    r
}

/// Whether lecture `i` is the first not yet used with its (non-empty)
/// keyword.
fn is_first_with_keyword(keys: &Vec<String>, used0: &Vec<bool>, i: usize, lectures: &Vec<ContributedLecture>) -> (r: bool)
    requires
        keys@.len() == lectures@.len(),
        used0@.len() == lectures@.len(),
        i < lectures@.len(),
        forall|j: int| 0 <= j < keys@.len() ==> #[trigger] keys@[j]@ == notes_key(lectures@[j]),
    ensures
        r == first_with_keyword(lectures@, used0@, i as int),
{
    assert(keys@[i as int]@ == notes_key(lectures@[i as int]));
    if used0[i] || keys[i].as_str().is_empty() {
        return false;
    }
    let mut j: usize = 0;
    while j < i
        invariant
            keys@.len() == lectures@.len(),
            used0@.len() == lectures@.len(),
            i < lectures@.len(),
            forall|j: int| 0 <= j < keys@.len() ==> #[trigger] keys@[j]@ == notes_key(lectures@[j]),
            j <= i,
            forall|q: int| 0 <= q < j ==> !(!used0@[q] && #[trigger] notes_key(lectures@[q]) == notes_key(lectures@[i as int])),
        decreases i - j,
    {
        assert(keys@[j as int]@ == notes_key(lectures@[j as int]));
        if !used0[j] && keys[j] == keys[i] {
            return false;
        }
        j = j + 1;
    }
    true
}

/// A copy of a list of flags.
fn copy_flags(v: &Vec<bool>) -> (r: Vec<bool>)
    ensures
        r@ == v@,
{
    let mut r: Vec<bool> = Vec::new();
    let mut i: usize = 0;
    while i < v.len()
        invariant
            i <= v@.len(),
            r@ == v@.take(i as int),
        decreases v.len() - i,
    {
        r.push(v[i]);
        i = i + 1;
        assert(r@ =~= v@.take(i as int));
    }
    assert(v@.take(v@.len() as int) =~= v@);
    r
}

impl CLPreprocessor {
    /// Makes a minisymposium of each group of four from the front of `f`,
    /// numbering them from `*group_id`, and marks their lectures used.
    fn emit_groups(
        &self,
        lectures: &Vec<ContributedLecture>,
        f: &Vec<usize>,
        used: &mut Vec<bool>,
        group_id: &mut i32,
        out: &mut Vec<Minisymposium>,
        Ghost(used0): Ghost<Seq<bool>>,
        Ghost(prev): Ghost<Seq<Seq<usize>>>,
        Ghost(id0): Ghost<int>,
    )
        requires
            made_from(old(out)@, lectures@, prev, id0),
            marks(old(used)@, used0, prev),
            *old(group_id) == id0 + prev.len(),
            id0 + prev.len() + f@.len() / 4 <= i32::MAX,
            forall|k: int| 0 <= k < f@.len() ==> #[trigger] f@[k] < old(used)@.len(),
        ensures
            made_from(final(out)@, lectures@, prev + groups_of_four(f@), id0),
            marks(final(used)@, used0, prev + groups_of_four(f@)),
            *final(group_id) == id0 + prev.len() + groups_of_four(f@).len(),
    {
        let ghost gof = groups_of_four(f@);
        assert(used@.len() == used.len());
        let mut pos: usize = 0;
        let ghost mut m: int = 0;
        while f.len() >= 4 && pos <= f.len() - 4
            invariant
                used@.len() <= usize::MAX,
                0 <= m <= f@.len() / 4,
                pos == 4 * m,
                pos <= f@.len(),
                gof == groups_of_four(f@),
                made_from(out@, lectures@, prev + gof.take(m), id0),
                marks(used@, used0, prev + gof.take(m)),
                *group_id == id0 + prev.len() + m,
                id0 + prev.len() + f@.len() / 4 <= i32::MAX,
                forall|k: int| 0 <= k < f@.len() ==> #[trigger] f@[k] < used@.len(),
            decreases f.len() - pos,
        {
            let ghost gs = prev + gof.take(m);
            let mut group: Vec<usize> = Vec::new();
            let mut q: usize = 0;
            while q < 4
                invariant
                    q <= 4,
                    pos + 4 <= f.len(),
                    used@.len() <= usize::MAX,
                    group@ == f@.subrange(pos as int, pos + q),
                    marks(used@, used0, gs) || q > 0,
                    used@.len() == used0.len(),
                    forall|j: int| 0 <= j < used@.len() ==> #[trigger] used@[j] == (used0[j] || in_groups(gs, j as usize) || group@.contains(j as usize)),
                    forall|k: int| 0 <= k < f@.len() ==> #[trigger] f@[k] < used@.len(),
                decreases 4 - q,
            {
                let x = f[pos + q];
                let ghost before = used@;
                let ghost gb = group@;
                used.set(x, true);
                group.push(x);
                proof {
                    assert(group@ =~= f@.subrange(pos as int, pos + q + 1));
                    assert forall|j: int| 0 <= j < used@.len() implies #[trigger] used@[j] == (used0[j] || in_groups(gs, j as usize) || group@.contains(j as usize)) by {
                        if j == x {
                            assert(group@[q as int] == x);
                        } else {
                            assert(used@[j] == before[j]);
                            if gb.contains(j as usize) {
                                let k = choose|k: int| 0 <= k < gb.len() && gb[k] == j as usize;
                                assert(group@[k] == j as usize);
                            }
                            if group@.contains(j as usize) {
                                let k = choose|k: int| 0 <= k < group@.len() && group@[k] == j as usize;
                                if k < q {
                                    assert(gb[k] == j as usize);
                                }
                            }
                        }
                    }
                }
                q = q + 1;
            }
            assert(gof[m] == group@);
            assert(gof.take(m + 1) =~= gof.take(m).push(group@));
            assert(prev + gof.take(m + 1) =~= gs.push(group@));
            proof {
                assert forall|j: int| 0 <= j < used@.len() implies #[trigger] used@[j] == (used0[j] || in_groups(gs.push(group@), j as usize)) by {
                    lemma_in_groups_push(gs, group@, j as usize);
                }
            }
            let ms = self.create_cl_minisymposium(lectures, &group, *group_id);
            out.push(ms);
            proof {
                assert forall|g: int| 0 <= g < out@.len() implies is_cl_minisymposium(#[trigger] out@[g], lectures@, gs.push(group@)[g], (id0 + g) as i32) by {
                    if g < gs.len() {
                        assert(gs.push(group@)[g] == gs[g]);
                    }
                }
            }
            *group_id = *group_id + 1;
            pos = pos + 4;
            proof {
                m = m + 1;
            }
        }
        assert(m == f@.len() / 4);
        assert(gof.take(m) =~= gof);
    }

    /// The groups formed by notes keyword (see `notes_groups`): for each
    /// keyword, in order of its first lecture not yet used, with at least
    /// two such lectures, the lectures left after dropping repeated speakers
    /// are grouped four by four from the front. Each group becomes a
    /// minisymposium numbered from `*group_id` on, and its lectures are
    /// marked used.
    pub fn group_by_notes(&self, lectures: &Vec<ContributedLecture>, used_indices: &mut Vec<bool>, group_id: &mut i32) -> (r: Vec<Minisymposium>)
        requires
            old(used_indices)@.len() == lectures@.len(),
            *old(group_id) + notes_groups(lectures@, old(used_indices)@).len() <= i32::MAX,
        ensures
            made_from(r@, lectures@, notes_groups(lectures@, old(used_indices)@), *old(group_id) as int),
            marks(final(used_indices)@, old(used_indices)@, notes_groups(lectures@, old(used_indices)@)),
            *final(group_id) == *old(group_id) + notes_groups(lectures@, old(used_indices)@).len(),
    {
        let ghost ls = lectures@;
        let ghost u0 = used_indices@;
        let ghost id0 = *group_id as int;
        let ghost total = notes_groups(ls, u0);
        let keys = notes_keys(lectures);
        let used0 = copy_flags(used_indices);
        let mut out: Vec<Minisymposium> = Vec::new();
        let mut i: usize = 0;
        while i < lectures.len()
            invariant
                ls == lectures@,
                u0 == used0@,
                keys@.len() == ls.len(),
                used0@.len() == ls.len(),
                forall|j: int| 0 <= j < keys@.len() ==> #[trigger] keys@[j]@ == notes_key(ls[j]),
                total == notes_groups(ls, u0),
                id0 + total.len() <= i32::MAX,
                i <= ls.len(),
                made_from(out@, ls, notes_groups_upto(ls, u0, i as nat), id0),
                marks(used_indices@, u0, notes_groups_upto(ls, u0, i as nat)),
                *group_id == id0 + notes_groups_upto(ls, u0, i as nat).len(),
            decreases lectures.len() - i,
        {
            let ghost prev = notes_groups_upto(ls, u0, i as nat);
            proof {
                lemma_notes_groups_grow(ls, u0, (i + 1) as nat, ls.len());
            }
            if is_first_with_keyword(&keys, &used0, i, lectures) {
                let idx = keyword_members(&keys, &used0, i, lectures);
                if idx.len() >= 2 {
                    proof {
                        lemma_keyword_indices_below(ls, u0, notes_key(ls[i as int]), ls.len());
                    }
                    let f = self.filter_duplicate_speakers(lectures, &idx);
                    proof {
                        lemma_speakers_filtered_members(ls, idx@, idx@.len());
                        assert forall|k: int| 0 <= k < f@.len() implies #[trigger] f@[k] < used_indices@.len() by {
                            assert(idx@.contains(f@[k]));
                        }
                        assert(notes_groups_upto(ls, u0, (i + 1) as nat) == prev + groups_of_four(f@));
                    }
                    self.emit_groups(lectures, &f, used_indices, group_id, &mut out, Ghost(u0), Ghost(prev), Ghost(id0));
                } else {
                    assert(notes_groups_upto(ls, u0, (i + 1) as nat) =~= prev);
                }
            } else {
                assert(notes_groups_upto(ls, u0, (i + 1) as nat) =~= prev);
            }
            i = i + 1;
        }
        out
    }
}


// ===========================================================================
// Compatibility of two lectures
// ===========================================================================

/// How the notes keywords of two lectures relate.
#[derive(Clone, Copy, Debug, PartialEq, Eq, Structural)]
pub enum NotesMatch {
    /// Both keywords are non-empty and equal.
    Same,
    /// Both are non-empty, differ, and one holds the other.
    Partial,
    /// Otherwise.
    Unrelated,
}

/// The terms that the compatibility score of two lectures is made of.
#[derive(Clone, Copy, Debug)]
pub struct CompatibilityTerms {
    /// Pairs of equal classification codes, one code from each lecture.
    pub classification_matches: i32,
    /// Both lectures have the same non-empty speaker.
    pub same_speaker: bool,
    /// How their notes keywords relate.
    pub notes_match: NotesMatch,
    /// Topic words their notes share (see `topic_overlap`).
    pub shared_topic_words: usize,
    /// Topic words of the two notes together.
    pub all_topic_words: usize,
}

/// How many of the first `end` codes of `c` equal `x`.
pub open spec fn code_count(x: i32, c: Seq<i32>, end: nat) -> nat
    decreases end,
{
    if end == 0 {
        0
    } else {
        code_count(x, c, (end - 1) as nat) + if c[end - 1] == x {
            1nat
        } else {
            0nat
        }
    }
}

/// The pairs of equal codes with the first code among the first `end` of
/// `c1`.
pub open spec fn code_matches(c1: Seq<i32>, c2: Seq<i32>, end: nat) -> nat
    decreases end,
{
    if end == 0 {
        0
    } else {
        code_matches(c1, c2, (end - 1) as nat) + code_count(c1[end - 1], c2, c2.len())
    }
}

/// How the notes keywords `n1` and `n2` relate.
pub open spec fn notes_match_of(n1: Seq<char>, n2: Seq<char>) -> NotesMatch {
    if n1.len() > 0 && n2.len() > 0 {
        if n1 == n2 {
            NotesMatch::Same
        } else if has_substring(n1, n2) || has_substring(n2, n1) {
            NotesMatch::Partial
        } else {
            NotesMatch::Unrelated
        }
    } else {
        NotesMatch::Unrelated
    }
}

proof fn lemma_code_count_bound(x: i32, c: Seq<i32>, end: nat)
    ensures
        code_count(x, c, end) <= end,
    decreases end,
{
    if end > 0 {
        lemma_code_count_bound(x, c, (end - 1) as nat);
    }
}

proof fn lemma_code_matches_mono(c1: Seq<i32>, c2: Seq<i32>, a: nat, b: nat)
    requires
        a <= b,
    ensures
        code_matches(c1, c2, a) <= code_matches(c1, c2, b),
    decreases b,
{
    if a < b {
        lemma_code_matches_mono(c1, c2, a, (b - 1) as nat);
    }
}

impl CLPreprocessor {
    /// The terms of the compatibility of two lectures: matching code pairs,
    /// whether they share a speaker (trimmed, lower-cased, non-empty),
    /// how their notes keywords (trimmed, lower-cased) relate, and how many
    /// topic words their notes share and have together.
    pub fn lecture_compatibility_terms(&self, l1: &ContributedLecture, l2: &ContributedLecture) -> (r:
        CompatibilityTerms)
        requires
            code_matches(l1.classification@, l2.classification@, l1.classification@.len()) <= i32::MAX,
        ensures
            r.classification_matches == code_matches(
                l1.classification@,
                l2.classification@,
                l1.classification@.len(),
            ),
            r.same_speaker == (speaker_key(*l1).len() > 0 && speaker_key(*l2).len() > 0 && speaker_key(*l1)
                == speaker_key(*l2)),
            r.notes_match == notes_match_of(notes_key(*l1), notes_key(*l2)),
            r.shared_topic_words == topic_words(l1.notes@).to_set().intersect(
                topic_words(l2.notes@).to_set(),
            ).len(),
            r.all_topic_words == topic_words(l1.notes@).to_set().union(topic_words(l2.notes@).to_set()).len(),
    {
        let c1 = &l1.classification;
        let c2 = &l2.classification;
        let ghost total = code_matches(c1@, c2@, c1@.len());
        let mut matches: i32 = 0;
        let mut i: usize = 0;
        while i < c1.len()
            invariant
                i <= c1@.len(),
                total == code_matches(c1@, c2@, c1@.len()),
                total <= i32::MAX,
                matches == code_matches(c1@, c2@, i as nat),
            decreases c1.len() - i,
        {
            proof {
                lemma_code_matches_mono(c1@, c2@, (i + 1) as nat, c1@.len());
            }
            let mut j: usize = 0;
            while j < c2.len()
                invariant
                    i < c1@.len(),
                    j <= c2@.len(),
                    matches == code_matches(c1@, c2@, i as nat) + code_count(c1@[i as int], c2@, j as nat),
                    code_matches(c1@, c2@, (i + 1) as nat) <= i32::MAX,
                decreases c2.len() - j,
            {
                proof {
                    lemma_code_count_bound(c1@[i as int], c2@, (j + 1) as nat);
                }
                if c1[i] == c2[j] {
                    proof {
                        assert(code_count(c1@[i as int], c2@, (j + 1) as nat) <= code_count(
                            c1@[i as int],
                            c2@,
                            c2@.len(),
                        )) by {
                            lemma_code_count_mono(c1@[i as int], c2@, (j + 1) as nat, c2@.len());
                        }
                    }
                    matches = matches + 1;
                }
                j = j + 1;
            }
            i = i + 1;
        }
        let s1 = trimmed_lowercase(&l1.speaker);
        let s2 = trimmed_lowercase(&l2.speaker);
        let same_speaker = !s1.as_str().is_empty() && !s2.as_str().is_empty() && s1 == s2;
        let n1 = trimmed_lowercase(&l1.notes);
        let n2 = trimmed_lowercase(&l2.notes);
        let notes_match = if !n1.as_str().is_empty() && !n2.as_str().is_empty() {
            if n1 == n2 {
                NotesMatch::Same
            } else if contains_text(n1.as_str(), n2.as_str()) || contains_text(n2.as_str(), n1.as_str()) {
                NotesMatch::Partial
            } else {
                NotesMatch::Unrelated
            }
        } else {
            NotesMatch::Unrelated
        };
        let (shared_topic_words, all_topic_words) = topic_overlap(l1.notes.as_str(), l2.notes.as_str());
        CompatibilityTerms {
            classification_matches: matches,
            same_speaker,
            notes_match,
            shared_topic_words,
            all_topic_words,
        }
    }
}

proof fn lemma_code_count_mono(x: i32, c: Seq<i32>, a: nat, b: nat)
    requires
        a <= b,
    ensures
        code_count(x, c, a) <= code_count(x, c, b),
    decreases b,
{
    if a < b {
        lemma_code_count_mono(x, c, a, (b - 1) as nat);
    }
}

// ===========================================================================
// Grouping by classification
// ===========================================================================

/// Two speakers that do not keep lectures apart: one is empty, or they
/// differ.
pub open spec fn speakers_allow(a: Seq<char>, b: Seq<char>) -> bool {
    a.len() == 0 || b.len() == 0 || a != b
}

/// Lecture `j` may join the group of `seed`: it exists, is neither used
/// before nor in one of the groups `prev`, is not the seed, and its speaker
/// allows the seed's.
pub open spec fn may_join(
    ls: Seq<ContributedLecture>,
    used0: Seq<bool>,
    prev: Seq<Seq<usize>>,
    seed: usize,
    j: usize,
) -> bool {
    &&& j < ls.len()
    &&& !used0[j as int]
    &&& !in_groups(prev, j)
    &&& j != seed
    &&& speakers_allow(speaker_key(ls[seed as int]), speaker_key(ls[j as int]))
}

/// The first `need` lectures of `ranked`, from position `p` on, that may
/// join the group of `seed`.
pub open spec fn best_candidates(
    ls: Seq<ContributedLecture>,
    used0: Seq<bool>,
    prev: Seq<Seq<usize>>,
    ranked: Seq<usize>,
    seed: usize,
    need: nat,
    p: nat,
) -> Seq<usize>
    decreases ranked.len() - p,
{
    if p >= ranked.len() || need == 0 {
        Seq::empty()
    } else if may_join(ls, used0, prev, seed, ranked[p as int]) {
        seq![ranked[p as int]] + best_candidates(ls, used0, prev, ranked, seed, (need - 1) as nat, p + 1)
    } else {
        best_candidates(ls, used0, prev, ranked, seed, need, p + 1)
    }
}

/// The groups formed by classification from the lectures `k < end`: each
/// lecture not used before and in no earlier group starts a group, joined by
/// the first three lectures that may join it in the order `ranked[k]` gives
/// (best compatibility first).
pub open spec fn classification_groups_upto(
    ls: Seq<ContributedLecture>,
    used0: Seq<bool>,
    ranked: Seq<Seq<usize>>,
    end: nat,
) -> Seq<Seq<usize>>
    decreases end,
{
    if end == 0 {
        Seq::empty()
    } else {
        let prev = classification_groups_upto(ls, used0, ranked, (end - 1) as nat);
        let k = (end - 1) as usize;
        if used0[k as int] || in_groups(prev, k) {
            prev
        } else {
            prev.push(seq![k] + best_candidates(ls, used0, prev, ranked[k as int], k, 3, 0))
        }
    }
}

/// All groups formed by classification.
pub open spec fn classification_groups(ls: Seq<ContributedLecture>, used0: Seq<bool>, ranked: Seq<Seq<usize>>) -> Seq<
    Seq<usize>,
> {
    classification_groups_upto(ls, used0, ranked, ls.len())
}

proof fn lemma_classification_groups_len(ls: Seq<ContributedLecture>, used0: Seq<bool>, ranked: Seq<Seq<usize>>, end: nat)
    ensures
        classification_groups_upto(ls, used0, ranked, end).len() <= end,
    decreases end,
{
    if end > 0 {
        lemma_classification_groups_len(ls, used0, ranked, (end - 1) as nat);
    }
}

impl CLPreprocessor {
    /// Marks the lectures of `group` used and adds the minisymposium made
    /// from them, numbered `*group_id`, which then grows by one.
    fn emit_group(
        &self,
        lectures: &Vec<ContributedLecture>,
        group: &Vec<usize>,
        used: &mut Vec<bool>,
        group_id: &mut i32,
        out: &mut Vec<Minisymposium>,
        Ghost(used0): Ghost<Seq<bool>>,
        Ghost(prev): Ghost<Seq<Seq<usize>>>,
        Ghost(id0): Ghost<int>,
    )
        requires
            made_from(old(out)@, lectures@, prev, id0),
            marks(old(used)@, used0, prev),
            *old(group_id) == id0 + prev.len(),
            id0 + prev.len() + 1 <= i32::MAX,
            forall|k: int| 0 <= k < group@.len() ==> #[trigger] group@[k] < old(used)@.len(),
        ensures
            made_from(final(out)@, lectures@, prev.push(group@), id0),
            marks(final(used)@, used0, prev.push(group@)),
            *final(group_id) == id0 + prev.len() + 1,
    {
        assert(used@.len() == used.len());
        let mut q: usize = 0;
        while q < group.len()
            invariant
                q <= group@.len(),
                used@.len() <= usize::MAX,
                used@.len() == used0.len(),
                forall|k: int| 0 <= k < group@.len() ==> #[trigger] group@[k] < used@.len(),
                forall|j: int|
                    0 <= j < used@.len() ==> #[trigger] used@[j] == (used0[j] || in_groups(prev, j as usize)
                        || group@.take(q as int).contains(j as usize)),
            decreases group.len() - q,
        {
            let x = group[q];
            let ghost before = used@;
            used.set(x, true);
            proof {
                assert forall|j: int| 0 <= j < used@.len() implies #[trigger] used@[j] == (used0[j] || in_groups(
                    prev,
                    j as usize,
                ) || group@.take(q + 1).contains(j as usize)) by {
                    let t0 = group@.take(q as int);
                    let t1 = group@.take(q + 1);
                    assert(t1[q as int] == x);
                    if j != x {
                        assert(j as usize != x);
                        assert(used@[j] == before[j]);
                        if t0.contains(j as usize) {
                            let k = choose|k: int| 0 <= k < t0.len() && t0[k] == j as usize;
                            assert(t1[k] == j as usize);
                        }
                        if t1.contains(j as usize) {
                            let k = choose|k: int| 0 <= k < t1.len() && t1[k] == j as usize;
                            assert(k != q);
                            assert(t0[k] == j as usize);
                        }
                    }
                }
            }
            q = q + 1;
        }
        assert(group@.take(group@.len() as int) =~= group@);
        proof {
            assert forall|j: int| 0 <= j < used@.len() implies #[trigger] used@[j] == (used0[j] || in_groups(
                prev.push(group@),
                j as usize,
            )) by {
                lemma_in_groups_push(prev, group@, j as usize);
            }
        }
        let ms = self.create_cl_minisymposium(lectures, group, *group_id);
        out.push(ms);
        proof {
            assert forall|g: int| 0 <= g < out@.len() implies is_cl_minisymposium(
                #[trigger] out@[g],
                lectures@,
                prev.push(group@)[g],
                (id0 + g) as i32,
            ) by {
                if g < prev.len() {
                    assert(prev.push(group@)[g] == prev[g]);
                }
            }
        }
        *group_id = *group_id + 1;
    }

    /// The groups formed by classification (see `classification_groups`),
    /// given for each lecture `k` the lectures in order of their
    /// compatibility with it (`ranked[k]`, best first). Each group becomes a
    /// minisymposium numbered from `*group_id` on, and its lectures are
    /// marked used.
    pub fn group_by_classification(
        &self,
        lectures: &Vec<ContributedLecture>,
        used_indices: &mut Vec<bool>,
        group_id: &mut i32,
        ranked: &Vec<Vec<usize>>,
    ) -> (r: Vec<Minisymposium>)
        requires
            old(used_indices)@.len() == lectures@.len(),
            ranked@.len() == lectures@.len(),
            *old(group_id) + lectures@.len() <= i32::MAX,
        ensures
            made_from(
                r@,
                lectures@,
                classification_groups(lectures@, old(used_indices)@, slots(ranked@)),
                *old(group_id) as int,
            ),
            marks(final(used_indices)@, old(used_indices)@, classification_groups(lectures@, old(used_indices)@, slots(ranked@))),
            *final(group_id) == *old(group_id) + classification_groups(lectures@, old(used_indices)@, slots(ranked@)).len(),
    {
        let ghost ls = lectures@;
        let ghost u0 = used_indices@;
        let ghost rk = slots(ranked@);
        let ghost id0 = *group_id as int;
        let mut out: Vec<Minisymposium> = Vec::new();
        let n = lectures.len();
        let mut k: usize = 0;
        while k < n
            invariant
                ls == lectures@,
                rk == slots(ranked@),
                n == ls.len(),
                u0.len() == n,
                rk.len() == n,
                ranked@.len() == n,
                k <= n,
                id0 + n <= i32::MAX,
                made_from(out@, ls, classification_groups_upto(ls, u0, rk, k as nat), id0),
                marks(used_indices@, u0, classification_groups_upto(ls, u0, rk, k as nat)),
                *group_id == id0 + classification_groups_upto(ls, u0, rk, k as nat).len(),
            decreases n - k,
        {
            let ghost prev = classification_groups_upto(ls, u0, rk, k as nat);
            proof {
                lemma_classification_groups_len(ls, u0, rk, k as nat);
            }
            if !used_indices[k] {
                assert(!u0[k as int] && !in_groups(prev, k));
                let seed_speaker = trimmed_lowercase(&lectures[k].speaker);
                let ghost ranked_k = rk[k as int];
                let mut group: Vec<usize> = Vec::new();
                group.push(k);
                let mut p: usize = 0;
                while p < ranked[k].len() && group.len() < 4
                    invariant
                        ls == lectures@,
                        rk == slots(ranked@),
                        n == ls.len(),
                        u0.len() == n,
                        rk.len() == n,
                        ranked@.len() == n,
                        k < n,
                        ranked_k == rk[k as int],
                        seed_speaker@ == speaker_key(ls[k as int]),
                        marks(used_indices@, u0, prev),
                        1 <= group@.len() <= 4,
                        group@[0] == k,
                        p <= ranked_k.len(),
                        forall|i: int| 0 <= i < group@.len() ==> #[trigger] group@[i] < n,
                        best_candidates(ls, u0, prev, ranked_k, k, 3, 0) == group@.drop_first() + best_candidates(
                            ls,
                            u0,
                            prev,
                            ranked_k,
                            k,
                            (4 - group@.len()) as nat,
                            p as nat,
                        ),
                    decreases ranked_k.len() - p,
                {
                    let j = ranked[k][p];
                    assert(j == ranked_k[p as int]);
                    let mut join = false;
                    if j < n && j != k {
                        if !used_indices[j] {
                            let sp = trimmed_lowercase(&lectures[j].speaker);
                            join = seed_speaker.as_str().is_empty() || sp.as_str().is_empty() || seed_speaker != sp;
                        }
                    }
                    assert(join == may_join(ls, u0, prev, k, j));
                    let ghost g0 = group@;
                    if join {
                        group.push(j);
                        assert(group@.drop_first() =~= g0.drop_first() + seq![j]);
                    }
                    p = p + 1;
                }
                assert(best_candidates(ls, u0, prev, ranked_k, k, (4 - group@.len()) as nat, p as nat) =~= Seq::<usize>::empty());
                assert(group@ =~= seq![k] + best_candidates(ls, u0, prev, ranked_k, k, 3, 0));
                assert(classification_groups_upto(ls, u0, rk, (k + 1) as nat) == prev.push(group@));
                self.emit_group(lectures, &group, used_indices, group_id, &mut out, Ghost(u0), Ghost(prev), Ghost(id0));
            } else {
                assert(u0[k as int] || in_groups(prev, k));
                assert(classification_groups_upto(ls, u0, rk, (k + 1) as nat) == prev);
            }
            k = k + 1;
        }
        out
    }
}

// ===========================================================================
// The groups partition the unused lectures
// ===========================================================================

/// No lecture occurs twice in the groups, within one group or across two.
pub open spec fn no_repeats(groups: Seq<Seq<usize>>) -> bool {
    forall|g1: int, k1: int, g2: int, k2: int|
        0 <= g1 < groups.len() && 0 <= k1 < groups[g1].len() && 0 <= g2 < groups.len() && 0 <= k2 < groups[g2].len()
            && #[trigger] groups[g1][k1] == #[trigger] groups[g2][k2] ==> g1 == g2 && k1 == k2
}

/// Every member of the groups is a lecture that `used` does not mark.
pub open spec fn members_unused(groups: Seq<Seq<usize>>, used: Seq<bool>) -> bool {
    forall|g: int, k: int|
        0 <= g < groups.len() && 0 <= k < groups[g].len() ==> #[trigger] groups[g][k] < used.len() && !used[groups[g][k] as int]
}

/// Every group has between `lo` and `hi` lectures.
pub open spec fn sizes_between(groups: Seq<Seq<usize>>, lo: nat, hi: nat) -> bool {
    forall|g: int| 0 <= g < groups.len() ==> lo <= (#[trigger] groups[g]).len() <= hi
}

/// `used` with the lectures of the groups marked too.
pub open spec fn marked(used: Seq<bool>, groups: Seq<Seq<usize>>) -> Seq<bool> {
    Seq::new(used.len(), |j: int| used[j] || in_groups(groups, j as usize))
}

/// The values strictly grow along the sequence.
spec fn increasing(s: Seq<usize>) -> bool {
    forall|a: int, b: int| 0 <= a < b < s.len() ==> #[trigger] s[a] < #[trigger] s[b]
}

/// No value occurs twice in the sequence.
pub open spec fn no_duplicates(s: Seq<usize>) -> bool {
    forall|a: int, b: int| 0 <= a < s.len() && 0 <= b < s.len() && #[trigger] s[a] == #[trigger] s[b] ==> a == b
}

proof fn lemma_keyword_indices_shape(ls: Seq<ContributedLecture>, used: Seq<bool>, kw: Seq<char>, end: nat)
    requires
        end <= ls.len(),
        used.len() == ls.len(),
        ls.len() <= usize::MAX,
    ensures
        increasing(keyword_indices(ls, used, kw, end)),
        forall|i: int|
            0 <= i < keyword_indices(ls, used, kw, end).len() ==> #[trigger] keyword_indices(ls, used, kw, end)[i] < end
                && !used[keyword_indices(ls, used, kw, end)[i] as int] && notes_key(
                ls[keyword_indices(ls, used, kw, end)[i] as int],
            ) == kw,
    decreases end,
{
    if end > 0 {
        lemma_keyword_indices_shape(ls, used, kw, (end - 1) as nat);
        let prev = keyword_indices(ls, used, kw, (end - 1) as nat);
        let cur = keyword_indices(ls, used, kw, end);
        assert forall|i: int| 0 <= i < cur.len() implies #[trigger] cur[i] < end && !used[cur[i] as int] && notes_key(
            ls[cur[i] as int],
        ) == kw by {
            if i < prev.len() {
                assert(cur[i] == prev[i]);
            }
        }
        assert forall|a: int, b: int| 0 <= a < b < cur.len() implies #[trigger] cur[a] < #[trigger] cur[b] by {
            assert(cur[a] == prev[a]);
            if b < prev.len() {
                assert(cur[b] == prev[b]);
            }
        }
    }
}

proof fn lemma_speakers_filtered_increasing(ls: Seq<ContributedLecture>, indices: Seq<usize>, end: nat)
    requires
        end <= indices.len(),
        increasing(indices),
    ensures
        increasing(speakers_filtered(ls, indices, end)),
        forall|i: int|
            0 <= i < speakers_filtered(ls, indices, end).len() ==> exists|m: int|
                0 <= m < end && indices[m] == #[trigger] speakers_filtered(ls, indices, end)[i],
    decreases end,
{
    if end > 0 {
        lemma_speakers_filtered_increasing(ls, indices, (end - 1) as nat);
        let prev = speakers_filtered(ls, indices, (end - 1) as nat);
        let cur = speakers_filtered(ls, indices, end);
        assert forall|i: int| 0 <= i < cur.len() implies exists|m: int| 0 <= m < end && indices[m] == #[trigger] cur[i] by {
            if i < prev.len() {
                assert(cur[i] == prev[i]);
                let m = choose|m: int| 0 <= m < end - 1 && indices[m] == #[trigger] prev[i];
            } else {
                assert(cur[i] == indices[end - 1]);
            }
        }
        assert forall|a: int, b: int| 0 <= a < b < cur.len() implies #[trigger] cur[a] < #[trigger] cur[b] by {
            assert(cur[a] == prev[a]);
            if b < prev.len() {
                assert(cur[b] == prev[b]);
            } else {
                let m = choose|m: int| 0 <= m < end - 1 && indices[m] == #[trigger] prev[a];
                assert(cur[b] == indices[end - 1]);
            }
        }
    }
}

/// The groups of four of an increasing sequence repeat no value, and each
/// member is a value of the sequence.
proof fn lemma_groups_of_four_shape(f: Seq<usize>)
    requires
        increasing(f),
    ensures
        no_repeats(groups_of_four(f)),
        sizes_between(groups_of_four(f), 4, 4),
        forall|g: int, k: int|
            0 <= g < groups_of_four(f).len() && 0 <= k < groups_of_four(f)[g].len() ==> #[trigger] groups_of_four(f)[g][k]
                == f[4 * g + k] && 0 <= 4 * g + k < f.len(),
{
    let gs = groups_of_four(f);
    assert forall|g: int, k: int| 0 <= g < gs.len() && 0 <= k < gs[g].len() implies #[trigger] gs[g][k] == f[4 * g + k]
        && 0 <= 4 * g + k < f.len() by {
        assert(gs[g] == f.subrange(4 * g, 4 * g + 4));
        assert(4 * g + 4 <= 4 * (f.len() / 4)) by (nonlinear_arith)
            requires
                0 <= g < f.len() / 4,
        ;
    }
    assert forall|g1: int, k1: int, g2: int, k2: int|
        0 <= g1 < gs.len() && 0 <= k1 < gs[g1].len() && 0 <= g2 < gs.len() && 0 <= k2 < gs[g2].len() && #[trigger] gs[g1][k1]
            == #[trigger] gs[g2][k2] implies g1 == g2 && k1 == k2 by {
        assert(gs[g1][k1] == f[4 * g1 + k1]);
        assert(gs[g2][k2] == f[4 * g2 + k2]);
        if 4 * g1 + k1 < 4 * g2 + k2 {
            assert(f[4 * g1 + k1] < f[4 * g2 + k2]);
        } else if 4 * g2 + k2 < 4 * g1 + k1 {
            assert(f[4 * g2 + k2] < f[4 * g1 + k1]);
        }
    }
    assert forall|g: int| 0 <= g < gs.len() implies 4 <= (#[trigger] gs[g]).len() <= 4 by {
        assert(gs[g] == f.subrange(4 * g, 4 * g + 4));
        assert(4 * g + 4 <= 4 * (f.len() / 4)) by (nonlinear_arith)
            requires
                0 <= g < f.len() / 4,
        ;
    }
}

/// The groups of keyword `kw` repeat no lecture, have four lectures each,
/// and hold only unused lectures of that keyword.
proof fn lemma_keyword_groups_shape(ls: Seq<ContributedLecture>, used: Seq<bool>, kw: Seq<char>)
    requires
        used.len() == ls.len(),
        ls.len() <= usize::MAX,
    ensures
        no_repeats(keyword_groups(ls, used, kw)),
        sizes_between(keyword_groups(ls, used, kw), 4, 4),
        forall|g: int, k: int|
            0 <= g < keyword_groups(ls, used, kw).len() && 0 <= k < keyword_groups(ls, used, kw)[g].len() ==> #[trigger] keyword_groups(
                ls,
                used,
                kw,
            )[g][k] < ls.len() && !used[keyword_groups(ls, used, kw)[g][k] as int] && notes_key(
                ls[keyword_groups(ls, used, kw)[g][k] as int],
            ) == kw,
{
    let idx = keyword_indices(ls, used, kw, ls.len());
    lemma_keyword_indices_shape(ls, used, kw, ls.len());
    if idx.len() >= 2 {
        let f = speakers_filtered(ls, idx, idx.len());
        lemma_speakers_filtered_increasing(ls, idx, idx.len());
        lemma_groups_of_four_shape(f);
        let gs = groups_of_four(f);
        assert forall|g: int, k: int| 0 <= g < gs.len() && 0 <= k < gs[g].len() implies #[trigger] gs[g][k] < ls.len()
            && !used[gs[g][k] as int] && notes_key(ls[gs[g][k] as int]) == kw by {
            assert(gs[g][k] == f[4 * g + k]);
            let m = choose|m: int| 0 <= m < idx.len() && idx[m] == #[trigger] f[4 * g + k];
            assert(idx[m] < ls.len());
        }
    }
}

/// The keyword of lecture `m` is that of a first lecture with its keyword
/// before `end`.
spec fn keyword_first_before(ls: Seq<ContributedLecture>, used: Seq<bool>, m: usize, end: int) -> bool {
    exists|j: int| 0 <= j < end && first_with_keyword(ls, used, j) && notes_key(ls[j]) == notes_key(ls[m as int])
}

proof fn lemma_notes_groups_shape(ls: Seq<ContributedLecture>, used: Seq<bool>, end: nat)
    requires
        used.len() == ls.len(),
        end <= ls.len(),
        ls.len() <= usize::MAX,
    ensures
        no_repeats(notes_groups_upto(ls, used, end)),
        sizes_between(notes_groups_upto(ls, used, end), 4, 4),
        members_unused(notes_groups_upto(ls, used, end), used),
        forall|g: int, k: int|
            0 <= g < notes_groups_upto(ls, used, end).len() && 0 <= k < notes_groups_upto(ls, used, end)[g].len()
                ==> keyword_first_before(ls, used, #[trigger] notes_groups_upto(ls, used, end)[g][k], end as int),
    decreases end,
{
    if end > 0 {
        let e = end - 1;
        lemma_notes_groups_shape(ls, used, (end - 1) as nat);
        let prev = notes_groups_upto(ls, used, (end - 1) as nat);
        let blk = if first_with_keyword(ls, used, e) {
            keyword_groups(ls, used, notes_key(ls[e]))
        } else {
            Seq::empty()
        };
        let cur = notes_groups_upto(ls, used, end);
        assert(cur == prev + blk);
        lemma_keyword_groups_shape(ls, used, notes_key(ls[e]));
        assert forall|g: int, k: int| 0 <= g < cur.len() && 0 <= k < cur[g].len() implies keyword_first_before(
            ls,
            used,
            #[trigger] cur[g][k],
            end as int,
        ) by {
            if g < prev.len() {
                assert(cur[g] == prev[g]);
                assert(cur[g][k] == prev[g][k]);
                assert(keyword_first_before(ls, used, prev[g][k], end - 1));
                let j = choose|j: int|
                    0 <= j < end - 1 && first_with_keyword(ls, used, j) && notes_key(ls[j]) == notes_key(ls[prev[g][k] as int]);
                assert(0 <= j < end && first_with_keyword(ls, used, j) && notes_key(ls[j]) == notes_key(ls[cur[g][k] as int]));
            } else {
                assert(cur[g] == blk[g - prev.len()]);
                assert(blk[g - prev.len()][k] == cur[g][k]);
                assert(first_with_keyword(ls, used, e));
            }
        }
        assert forall|g: int| 0 <= g < cur.len() implies 4 <= (#[trigger] cur[g]).len() <= 4 by {
            if g < prev.len() {
                assert(cur[g] == prev[g]);
            } else {
                assert(cur[g] == blk[g - prev.len()]);
            }
        }
        assert forall|g: int, k: int| 0 <= g < cur.len() && 0 <= k < cur[g].len() implies #[trigger] cur[g][k] < used.len()
            && !used[cur[g][k] as int] by {
            if g < prev.len() {
                assert(cur[g] == prev[g]);
                assert(cur[g][k] == prev[g][k]);
            } else {
                assert(cur[g] == blk[g - prev.len()]);
                assert(blk[g - prev.len()][k] == cur[g][k]);
            }
        }
        assert forall|g1: int, k1: int, g2: int, k2: int|
            0 <= g1 < cur.len() && 0 <= k1 < cur[g1].len() && 0 <= g2 < cur.len() && 0 <= k2 < cur[g2].len()
                && #[trigger] cur[g1][k1] == #[trigger] cur[g2][k2] implies g1 == g2 && k1 == k2 by {
            if g1 < prev.len() && g2 < prev.len() {
                assert(cur[g1] == prev[g1] && cur[g2] == prev[g2]);
                assert(prev[g1][k1] == prev[g2][k2]);
            } else if g1 >= prev.len() && g2 >= prev.len() {
                assert(cur[g1] == blk[g1 - prev.len()] && cur[g2] == blk[g2 - prev.len()]);
                assert(blk[g1 - prev.len()][k1] == blk[g2 - prev.len()][k2]);
            } else {
                let (go, ko, gn, kn) = if g1 < prev.len() { (g1, k1, g2, k2) } else { (g2, k2, g1, k1) };
                assert(cur[go] == prev[go]);
                assert(cur[go][ko] == prev[go][ko]);
                assert(cur[gn] == blk[gn - prev.len()]);
                assert(blk[gn - prev.len()][kn] == cur[gn][kn]);
                let m = prev[go][ko];
                assert(keyword_first_before(ls, used, prev[go][ko], end - 1));
                let j = choose|j: int|
                    0 <= j < end - 1 && first_with_keyword(ls, used, j) && notes_key(ls[j]) == notes_key(ls[prev[go][ko] as int]);
                assert(first_with_keyword(ls, used, e));
                assert(notes_key(ls[m as int]) == notes_key(ls[e]));
                assert(!(!used[j] && notes_key(ls[j]) == notes_key(ls[e])));
            }
        }
    }
}

proof fn lemma_best_candidates_shape(
    ls: Seq<ContributedLecture>,
    used0: Seq<bool>,
    prev: Seq<Seq<usize>>,
    ranked: Seq<usize>,
    seed: usize,
    need: nat,
    p: nat,
)
    requires
        no_duplicates(ranked),
    ensures
        best_candidates(ls, used0, prev, ranked, seed, need, p).len() <= need,
        no_duplicates(best_candidates(ls, used0, prev, ranked, seed, need, p)),
        forall|i: int|
            0 <= i < best_candidates(ls, used0, prev, ranked, seed, need, p).len() ==> may_join(
                ls,
                used0,
                prev,
                seed,
                #[trigger] best_candidates(ls, used0, prev, ranked, seed, need, p)[i],
            ) && exists|q: int| p <= q < ranked.len() && ranked[q] == best_candidates(ls, used0, prev, ranked, seed, need, p)[i],
    decreases ranked.len() - p,
{
    if p < ranked.len() && need > 0 {
        let x = ranked[p as int];
        if may_join(ls, used0, prev, seed, x) {
            lemma_best_candidates_shape(ls, used0, prev, ranked, seed, (need - 1) as nat, p + 1);
            let rest = best_candidates(ls, used0, prev, ranked, seed, (need - 1) as nat, p + 1);
            let bc = best_candidates(ls, used0, prev, ranked, seed, need, p);
            assert(bc == seq![x] + rest);
            assert forall|i: int| 0 <= i < bc.len() implies may_join(ls, used0, prev, seed, #[trigger] bc[i]) && exists|q: int|
                p <= q < ranked.len() && ranked[q] == bc[i] by {
                if i > 0 {
                    assert(bc[i] == rest[i - 1]);
                }
            }
            assert forall|a: int, b: int| 0 <= a < bc.len() && 0 <= b < bc.len() && #[trigger] bc[a] == #[trigger] bc[b] implies a == b by {
                if a > 0 && b > 0 {
                    assert(bc[a] == rest[a - 1] && bc[b] == rest[b - 1]);
                } else if a > 0 {
                    assert(bc[a] == rest[a - 1]);
                    let q = choose|q: int| p + 1 <= q < ranked.len() && ranked[q] == rest[a - 1];
                    assert(ranked[q] == ranked[p as int]);
                } else if b > 0 {
                    assert(bc[b] == rest[b - 1]);
                    let q = choose|q: int| p + 1 <= q < ranked.len() && ranked[q] == rest[b - 1];
                    assert(ranked[q] == ranked[p as int]);
                }
            }
        } else {
            lemma_best_candidates_shape(ls, used0, prev, ranked, seed, need, p + 1);
        }
    }
}

proof fn lemma_classification_groups_shape(ls: Seq<ContributedLecture>, used: Seq<bool>, ranked: Seq<Seq<usize>>, end: nat)
    requires
        used.len() == ls.len(),
        ranked.len() == ls.len(),
        end <= ls.len(),
        ls.len() <= usize::MAX,
        forall|k: int| 0 <= k < ranked.len() ==> no_duplicates(#[trigger] ranked[k]),
    ensures
        no_repeats(classification_groups_upto(ls, used, ranked, end)),
        sizes_between(classification_groups_upto(ls, used, ranked, end), 1, 4),
        members_unused(classification_groups_upto(ls, used, ranked, end), used),
        forall|j: int| 0 <= j < end && !used[j] ==> in_groups(classification_groups_upto(ls, used, ranked, end), j as usize),
    decreases end,
{
    if end > 0 {
        lemma_classification_groups_shape(ls, used, ranked, (end - 1) as nat);
        let prev = classification_groups_upto(ls, used, ranked, (end - 1) as nat);
        let cur = classification_groups_upto(ls, used, ranked, end);
        let k = (end - 1) as usize;
        if used[k as int] || in_groups(prev, k) {
            assert(cur == prev);
            assert forall|j: int| 0 <= j < end && !used[j] implies in_groups(cur, j as usize) by {
                if j == k {
                }
            }
        } else {
            let bc = best_candidates(ls, used, prev, ranked[k as int], k, 3, 0);
            let grp = seq![k] + bc;
            assert(cur == prev.push(grp));
            lemma_best_candidates_shape(ls, used, prev, ranked[k as int], k, 3, 0);
            let last = prev.len() as int;
            assert(cur[last] == grp);
            assert forall|g: int| 0 <= g < cur.len() implies 1 <= (#[trigger] cur[g]).len() <= 4 by {
                if g < last {
                    assert(cur[g] == prev[g]);
                }
            }
            assert forall|g: int, i: int| 0 <= g < cur.len() && 0 <= i < cur[g].len() implies #[trigger] cur[g][i] < used.len()
                && !used[cur[g][i] as int] by {
                if g < last {
                    assert(cur[g] == prev[g]);
                    assert(cur[g][i] == prev[g][i]);
                } else if i > 0 {
                    assert(cur[g][i] == bc[i - 1]);
                    assert(may_join(ls, used, prev, k, bc[i - 1]));
                }
            }
            assert forall|j: int| 0 <= j < end && !used[j] implies in_groups(cur, j as usize) by {
                if j == k {
                    assert(cur[last][0] == k);
                } else {
                    assert(in_groups(prev, j as usize));
                    let (g, i) = choose|g: int, i: int| 0 <= g < prev.len() && 0 <= i < prev[g].len() && #[trigger] prev[g][i] == j as usize;
                    assert(cur[g] == prev[g]);
                    assert(cur[g][i] == j as usize);
                }
            }
            assert forall|g1: int, k1: int, g2: int, k2: int|
                0 <= g1 < cur.len() && 0 <= k1 < cur[g1].len() && 0 <= g2 < cur.len() && 0 <= k2 < cur[g2].len()
                    && #[trigger] cur[g1][k1] == #[trigger] cur[g2][k2] implies g1 == g2 && k1 == k2 by {
                if g1 < last && g2 < last {
                    assert(cur[g1] == prev[g1] && cur[g2] == prev[g2]);
                    assert(prev[g1][k1] == prev[g2][k2]);
                } else if g1 == last && g2 == last {
                    if k1 > 0 && k2 > 0 {
                        assert(grp[k1] == bc[k1 - 1] && grp[k2] == bc[k2 - 1]);
                    } else if k1 > 0 {
                        assert(grp[k1] == bc[k1 - 1]);
                        assert(may_join(ls, used, prev, k, bc[k1 - 1]));
                    } else if k2 > 0 {
                        assert(grp[k2] == bc[k2 - 1]);
                        assert(may_join(ls, used, prev, k, bc[k2 - 1]));
                    }
                } else {
                    let (go, ko, kn) = if g1 < last { (g1, k1, k2) } else { (g2, k2, k1) };
                    assert(cur[go] == prev[go]);
                    let v = prev[go][ko];
                    assert(cur[go][ko] == v);
                    assert(in_groups(prev, v));
                    if kn > 0 {
                        assert(grp[kn] == bc[kn - 1]);
                        assert(may_join(ls, used, prev, k, bc[kn - 1]));
                    } else {
                        assert(grp[0] == k);
                    }
                }
            }
        }
    }
}

/// The two grouping phases together partition the lectures not used
/// before: the groups by notes keyword (of four) and then the groups by
/// classification of what is left (of one to four, each lecture's ranking
/// naming no lecture twice) hold no lecture twice, hold only lectures not
/// used before, and hold every such lecture.
pub proof fn law_lecture_groups_partition(ls: Seq<ContributedLecture>, used0: Seq<bool>, ranked: Seq<Seq<usize>>)
    requires
        used0.len() == ls.len(),
        ranked.len() == ls.len(),
        ls.len() <= usize::MAX,
        forall|k: int| 0 <= k < ranked.len() ==> no_duplicates(#[trigger] ranked[k]),
    ensures
        ({
            let all = notes_groups(ls, used0) + classification_groups(ls, marked(used0, notes_groups(ls, used0)), ranked);
            &&& no_repeats(all)
            &&& sizes_between(all, 1, 4)
            &&& members_unused(all, used0)
            &&& forall|j: int| 0 <= j < ls.len() && !used0[j] ==> in_groups(all, j as usize)
        }),
{
    let g1 = notes_groups(ls, used0);
    let used1 = marked(used0, g1);
    let g2 = classification_groups(ls, used1, ranked);
    let all = g1 + g2;
    lemma_notes_groups_shape(ls, used0, ls.len());
    lemma_classification_groups_shape(ls, used1, ranked, ls.len());
    let n1 = g1.len() as int;
    assert forall|g: int| 0 <= g < all.len() implies 1 <= (#[trigger] all[g]).len() <= 4 by {
        if g < n1 {
            assert(all[g] == g1[g]);
        } else {
            assert(all[g] == g2[g - n1]);
        }
    }
    assert forall|g: int, k: int| 0 <= g < all.len() && 0 <= k < all[g].len() implies #[trigger] all[g][k] < used0.len()
        && !used0[all[g][k] as int] by {
        if g < n1 {
            assert(all[g] == g1[g]);
            assert(all[g][k] == g1[g][k]);
        } else {
            assert(all[g] == g2[g - n1]);
            assert(all[g][k] == g2[g - n1][k]);
            assert(!used1[g2[g - n1][k] as int]);
        }
    }
    assert forall|j: int| 0 <= j < ls.len() && !used0[j] implies in_groups(all, j as usize) by {
        if in_groups(g1, j as usize) {
            let (g, k) = choose|g: int, k: int| 0 <= g < g1.len() && 0 <= k < g1[g].len() && #[trigger] g1[g][k] == j as usize;
            assert(all[g] == g1[g]);
            assert(all[g][k] == j as usize);
        } else {
            assert(!used1[j]);
            let (g, k) = choose|g: int, k: int| 0 <= g < g2.len() && 0 <= k < g2[g].len() && #[trigger] g2[g][k] == j as usize;
            assert(all[g + n1] == g2[g]);
            assert(all[g + n1][k] == j as usize);
        }
    }
    assert forall|a1: int, b1: int, a2: int, b2: int|
        0 <= a1 < all.len() && 0 <= b1 < all[a1].len() && 0 <= a2 < all.len() && 0 <= b2 < all[a2].len()
            && #[trigger] all[a1][b1] == #[trigger] all[a2][b2] implies a1 == a2 && b1 == b2 by {
        if a1 < n1 && a2 < n1 {
            assert(all[a1] == g1[a1] && all[a2] == g1[a2]);
            assert(g1[a1][b1] == g1[a2][b2]);
        } else if a1 >= n1 && a2 >= n1 {
            assert(all[a1] == g2[a1 - n1] && all[a2] == g2[a2 - n1]);
            assert(g2[a1 - n1][b1] == g2[a2 - n1][b2]);
        } else {
            let (ao, bo, an, bn) = if a1 < n1 { (a1, b1, a2, b2) } else { (a2, b2, a1, b1) };
            assert(all[ao] == g1[ao]);
            assert(all[an] == g2[an - n1]);
            let v = g1[ao][bo];
            assert(all[ao][bo] == v);
            assert(in_groups(g1, v));
            assert(g2[an - n1][bn] == v);
            assert(v < used0.len());
            assert(used1[v as int]);
        }
    }
}

/// Minisymposia made from two runs of groups, the second numbered on from
/// where the first ended, are the minisymposia of all the groups numbered
/// consecutively.
pub proof fn law_groups_numbered_in_sequence(
    o1: Seq<Minisymposium>,
    o2: Seq<Minisymposium>,
    ls: Seq<ContributedLecture>,
    g1: Seq<Seq<usize>>,
    g2: Seq<Seq<usize>>,
    id0: int,
)
    requires
        made_from(o1, ls, g1, id0),
        made_from(o2, ls, g2, id0 + g1.len()),
    ensures
        made_from(o1 + o2, ls, g1 + g2, id0),
{
    let o = o1 + o2;
    let g = g1 + g2;
    assert forall|i: int| 0 <= i < o.len() implies is_cl_minisymposium(#[trigger] o[i], ls, g[i], (id0 + i) as i32) by {
        if i < o1.len() {
            assert(o[i] == o1[i] && g[i] == g1[i]);
        } else {
            assert(o[i] == o2[i - o1.len()] && g[i] == g2[i - g1.len()]);
            assert(is_cl_minisymposium(o2[i - o1.len()], ls, g2[i - o1.len()], (id0 + g1.len() + (i - o1.len())) as i32));
        }
    }
}

} // verus!
