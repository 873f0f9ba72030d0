//! Topic words of a notes field and how far two notes fields share them:
//! the sizes of the intersection and of the union of their word sets.
use vstd::prelude::*;
use vstd::string::StringSliceAdditionalSpecFns;
use crate::analysis::{count_strings, count_in, distinct, distinct_strings, distinct_upto, lemma_distinct_has, lemma_distinct_members};
use crate::preprocess::views;
use crate::text::{chars_of, is_whitespace_char, is_ws, lowercase_of, string_of, to_lowercase};

verus! {

// ===========================================================================
// Words
// ===========================================================================

/// The words finished within the first `end` characters, and the word still
/// being read.
pub open spec fn word_scan(s: Seq<char>, end: nat) -> (Seq<Seq<char>>, Seq<char>)
    decreases end,
{
    if end == 0 {
        (Seq::empty(), Seq::empty())
    } else {
        let prev = word_scan(s, (end - 1) as nat);
        let c = s[end - 1];
        if is_ws(c) {
            if prev.1.len() > 0 {
                (prev.0.push(prev.1), Seq::empty())
            } else {
                prev
            }
        } else {
            (prev.0, prev.1.push(c))
        }
    }
}

/// The non-empty runs of non-whitespace characters of `s`, in order (what
/// `str::split_whitespace` yields).
pub open spec fn whitespace_words(s: Seq<char>) -> Seq<Seq<char>> {
    let w = word_scan(s, s.len());
    if w.1.len() > 0 {
        w.0.push(w.1)
    } else {
        w.0
    }
}

fn words_of(v: &Vec<char>) -> (r: Vec<Vec<char>>)
    ensures
        r@.map_values(|w: Vec<char>| w@) == whitespace_words(v@),
{
    let mut ws: Vec<Vec<char>> = Vec::new();
    let mut cur: Vec<char> = Vec::new();
    let mut i: usize = 0;
    while i < v.len()
        invariant
            i <= v@.len(),
            (ws@.map_values(|w: Vec<char>| w@), cur@) == word_scan(v@, i as nat),
        decreases v.len() - i,
    {
        let c = v[i];
        if is_whitespace_char(c) {
            if cur.len() > 0 {
                let ghost prev = ws@;
                ws.push(cur);
                cur = Vec::new();
                assert(ws@.map_values(|w: Vec<char>| w@) =~= prev.map_values(|w: Vec<char>| w@).push(
                    word_scan(v@, i as nat).1,
                ));
            }
        } else {
            cur.push(c);
        }
        i = i + 1;
    }
    if cur.len() > 0 {
        let ghost prev = ws@;
        ws.push(cur);
        assert(ws@.map_values(|w: Vec<char>| w@) =~= prev.map_values(|w: Vec<char>| w@).push(
            word_scan(v@, v@.len()).1,
        ));
    }
    ws
}

// ===========================================================================
// Punctuation
// ===========================================================================

/// The punctuation stripped from the ends of a topic word.
pub open spec fn is_topic_punct(c: char) -> bool {
    c == '.' || c == ',' || c == ';' || c == ':' || c == '!' || c == '?'
}

/// `s` without leading punctuation.
pub open spec fn strip_punct_start(s: Seq<char>) -> Seq<char>
    decreases s.len(),
{
    if s.len() > 0 && is_topic_punct(s[0]) {
        strip_punct_start(s.drop_first())
    } else {
        s
    }
}

/// `s` without trailing punctuation.
pub open spec fn strip_punct_end(s: Seq<char>) -> Seq<char>
    decreases s.len(),
{
    if s.len() > 0 && is_topic_punct(s.last()) {
        strip_punct_end(s.drop_last())
    } else {
        s
    }
}

proof fn lemma_strip_start(s: Seq<char>, a: int)
    requires
        0 <= a <= s.len(),
        forall|k: int| 0 <= k < a ==> is_topic_punct(#[trigger] s[k]),
        a == s.len() || !is_topic_punct(s[a]),
    ensures
        strip_punct_start(s) == s.subrange(a, s.len() as int),
    decreases a,
{
    if a == 0 {
        assert(s.subrange(0, s.len() as int) =~= s);
    } else {
        assert(is_topic_punct(s[0]));
        let t = s.drop_first();
        assert forall|k: int| 0 <= k < a - 1 implies is_topic_punct(#[trigger] t[k]) by {
            assert(t[k] == s[k + 1]);
        }
        lemma_strip_start(t, a - 1);
        assert(t.subrange(a - 1, t.len() as int) =~= s.subrange(a, s.len() as int));
    }
}

proof fn lemma_strip_end(s: Seq<char>, b: int)
    requires
        0 <= b <= s.len(),
        forall|k: int| b <= k < s.len() ==> is_topic_punct(#[trigger] s[k]),
        b == 0 || !is_topic_punct(s[b - 1]),
    ensures
        strip_punct_end(s) == s.subrange(0, b),
    decreases s.len() - b,
{
    if b == s.len() {
        assert(s.subrange(0, b) =~= s);
    } else {
        assert(is_topic_punct(s.last()));
        let t = s.drop_last();
        lemma_strip_end(t, b);
        assert(t.subrange(0, b) =~= s.subrange(0, b));
    }
}

fn is_topic_punct_exec(c: char) -> (r: bool)
    ensures
        r == is_topic_punct(c),
{
    c == '.' || c == ',' || c == ';' || c == ':' || c == '!' || c == '?'
}

/// `v` without punctuation at either end.
fn strip_punct(v: &Vec<char>) -> (r: Vec<char>)
    ensures
        r@ == strip_punct_end(strip_punct_start(v@)),
{
    let n = v.len();
    let mut a: usize = 0;
    while a < n && is_topic_punct_exec(v[a])
        invariant
            a <= n,
            n == v.len(),
            forall|k: int| 0 <= k < a ==> is_topic_punct(#[trigger] v@[k]),
        decreases n - a,
    {
        a = a + 1;
    }
    proof {
        lemma_strip_start(v@, a as int);
    }
    let ghost t = v@.subrange(a as int, n as int);
    let mut b: usize = n;
    while b > a && is_topic_punct_exec(v[b - 1])
        invariant
            a <= b <= n,
            n == v.len(),
            forall|k: int| b <= k < n ==> is_topic_punct(#[trigger] v@[k]),
        decreases b - a,
    {
        b = b - 1;
    }
    proof {
        assert forall|k: int| b - a <= k < t.len() implies is_topic_punct(#[trigger] t[k]) by {
            assert(t[k] == v@[k + a]);
        }
        if b - a > 0 {
            assert(t[b - a - 1] == v@[b - 1]);
        }
        lemma_strip_end(t, b - a);
    }
    let mut r: Vec<char> = Vec::new();
    let mut i: usize = a;
    while i < b
        invariant
            a <= i <= b <= n,
            n == v.len(),
            r@ == v@.subrange(a as int, i as int),
        decreases b - i,
    {
        r.push(v[i]);
        i = i + 1;
        assert(r@ =~= v@.subrange(a as int, i as int));
    }
    assert(t.subrange(0, b - a) =~= r@);
    r
}

// ===========================================================================
// Topic words
// ===========================================================================

/// How many bytes `c` takes in UTF-8.
pub open spec fn utf8_width(c: char) -> nat {
    let u = c as u32;
    if u <= 0x7F {
        1
    } else if u <= 0x7FF {
        2
    } else if u <= 0xFFFF {
        3
    } else {
        4
    }
}

/// How many bytes `s` takes in UTF-8.
pub open spec fn utf8_len(s: Seq<char>) -> nat
    decreases s.len(),
{
    if s.len() == 0 {
        0
    } else {
        utf8_width(s[0]) + utf8_len(s.drop_first())
    }
}

proof fn lemma_utf8_len(s: Seq<char>)
    ensures
        vstd::utf8::encode_utf8(s).len() == utf8_len(s),
    decreases s.len(),
{
    if s.len() > 0 {
        vstd::utf8::char_is_scalar(s[0]);
        lemma_utf8_len(s.drop_first());
    }
}

/// Whether `v` takes more than three bytes in UTF-8.
fn more_than_three_bytes(v: &Vec<char>) -> (r: bool)
    ensures
        r == (vstd::utf8::encode_utf8(v@).len() > 3),
{
    proof {
        lemma_utf8_len(v@);
    }
    let mut total: usize = 0;
    let mut i: usize = 0;
    assert(v@.skip(0) =~= v@);
    while i < v.len()
        invariant
            i <= v@.len(),
            total <= 3,
            total + utf8_len(v@.skip(i as int)) == utf8_len(v@),
            vstd::utf8::encode_utf8(v@).len() == utf8_len(v@),
        decreases v.len() - i,
    {
        let u = v[i] as u32;
        let w: usize = if u <= 0x7F {
            1
        } else if u <= 0x7FF {
            2
        } else if u <= 0xFFFF {
            3
        } else {
            4
        };
        assert(v@.skip(i as int).drop_first() =~= v@.skip(i + 1));
        assert(v@.skip(i as int)[0] == v@[i as int]);
        assert(w == utf8_width(v@[i as int]));
        assert(utf8_len(v@.skip(i as int)) == utf8_width(v@[i as int]) + utf8_len(v@.skip(i + 1)));
        total = total + w;
        i = i + 1;
        if total > 3 {
            return true;
        }
    }
    assert(v@.skip(i as int) =~= Seq::<char>::empty());
    false
}

/// A word as compared for topics: lower-cased, punctuation stripped from
/// both ends.
pub open spec fn topic_word(w: Seq<char>) -> Seq<char> {
    strip_punct_end(strip_punct_start(lowercase_of(w)))
}

/// The topic words of the first `end` words that are longer than three
/// bytes in UTF-8, in order, repeats kept.
pub open spec fn long_topic_words(words: Seq<Seq<char>>, end: nat) -> Seq<Seq<char>>
    decreases end,
{
    if end == 0 {
        Seq::empty()
    } else {
        let prev = long_topic_words(words, (end - 1) as nat);
        let t = topic_word(words[end - 1]);
        if vstd::utf8::encode_utf8(t).len() > 3 {
            prev.push(t)
        } else {
            prev
        }
    }
}

/// The topic words of a notes field: its whitespace-separated words,
/// lower-cased, stripped of `. , ; : ! ?` at both ends, those of more than
/// three bytes kept.
pub open spec fn topic_words(notes: Seq<char>) -> Seq<Seq<char>> {
    let ws = whitespace_words(notes);
    long_topic_words(ws, ws.len())
}

/// The topic words of `notes`, in order, repeats kept.
pub fn topic_words_of(notes: &str) -> (r: Vec<String>)
    ensures
        views(r@) == topic_words(notes@),
{
    let v = chars_of(notes);
    let words = words_of(&v);
    let ghost ws = whitespace_words(notes@);
    let mut r: Vec<String> = Vec::new();
    let mut i: usize = 0;
    while i < words.len()
        invariant
            i <= words@.len(),
            words@.map_values(|w: Vec<char>| w@) == ws,
            views(r@) == long_topic_words(ws, i as nat),
        decreases words.len() - i,
    {
        assert(words@[i as int]@ == ws[i as int]);
        let word = string_of(&words[i]);
        let lower = to_lowercase(word.as_str());
        let lv = chars_of(lower.as_str());
        let stripped = strip_punct(&lv);
        let long = more_than_three_bytes(&stripped);
        let t = string_of(&stripped);
        if long {
            let ghost prev = r@;
            r.push(t);
            assert(views(r@) =~= views(prev).push(topic_word(ws[i as int])));
        }
        i = i + 1;
    }
    r
}

// ===========================================================================
// Overlap of two word sets
// ===========================================================================

/// The entries of the first `end` of `d` that `t` contains, in order.
pub open spec fn shared_upto(d: Seq<Seq<char>>, t: Seq<Seq<char>>, end: nat) -> Seq<Seq<char>>
    decreases end,
{
    if end == 0 {
        Seq::empty()
    } else {
        let prev = shared_upto(d, t, (end - 1) as nat);
        if t.contains(d[end - 1]) {
            prev.push(d[end - 1])
        } else {
            prev
        }
    }
}

/// The distinct entries of `s` hold no repeat and make up the same set.
proof fn lemma_distinct_set(s: Seq<Seq<char>>)
    ensures
        distinct(s).no_duplicates(),
        distinct(s).to_set() == s.to_set(),
{
    lemma_distinct_no_dup(s, s.len());
    lemma_distinct_has(s, s.len());
    lemma_distinct_members(s, s.len());
    let d = distinct(s);
    assert forall|x: Seq<char>| d.to_set().contains(x) <==> s.to_set().contains(x) by {
        if s.contains(x) {
            let i = choose|i: int| 0 <= i < s.len() && s[i] == x;
            assert(d.contains(s[i]));
        }
        if d.contains(x) {
            let i = choose|i: int| 0 <= i < d.len() && d[i] == x;
            assert(s.contains(d[i]));
        }
    }
    assert(d.to_set() =~= s.to_set());
}

proof fn lemma_distinct_no_dup(s: Seq<Seq<char>>, end: nat)
    requires
        end <= s.len(),
    ensures
        distinct_upto(s, end).no_duplicates(),
    decreases end,
{
    if end > 0 {
        lemma_distinct_no_dup(s, (end - 1) as nat);
    }
}

/// The shared entries of a repeat-free `d` are repeat-free and make up the
/// intersection of the two sets.
proof fn lemma_shared(d: Seq<Seq<char>>, t: Seq<Seq<char>>, end: nat)
    requires
        end <= d.len(),
        d.no_duplicates(),
    ensures
        shared_upto(d, t, end).no_duplicates(),
        shared_upto(d, t, end).to_set() == d.take(end as int).to_set().intersect(t.to_set()),
    decreases end,
{
    let cur = shared_upto(d, t, end);
    if end == 0 {
        assert(d.take(0) =~= Seq::<Seq<char>>::empty());
        assert(cur.to_set() =~= d.take(0).to_set().intersect(t.to_set()));
    } else {
        lemma_shared(d, t, (end - 1) as nat);
        let prev = shared_upto(d, t, (end - 1) as nat);
        let x = d[end - 1];
        assert(d.take(end as int) =~= d.take(end - 1).push(x));
        if t.contains(x) {
            assert(!prev.contains(x)) by {
                if prev.contains(x) {
                    assert(prev.to_set().contains(x));
                    assert(d.take(end - 1).to_set().contains(x));
                    let pre = d.take(end - 1);
                    let k = choose|k: int| 0 <= k < pre.len() && pre[k] == x;
                    assert(d[k] == d[end - 1]);
                }
            }
            assert forall|i: int, j: int| 0 <= i < cur.len() && 0 <= j < cur.len() && i != j implies cur[i]
                != cur[j] by {
                if i < prev.len() && j < prev.len() {
                } else if i < prev.len() {
                    assert(cur[j] == x && cur[i] == prev[i]);
                } else {
                    assert(cur[i] == x && cur[j] == prev[j]);
                }
            }
        }
        assert forall|y: Seq<char>| cur.to_set().contains(y) <==> d.take(end as int).to_set().intersect(
            t.to_set(),
        ).contains(y) by {
            if t.contains(x) {
                assert(cur.to_set() =~= prev.to_set().insert(x)) by {
                    assert(cur =~= prev.push(x));
                    Seq::<Seq<char>>::lemma_to_set_insert_commutes(prev, x);
                    assert(prev.push(x) =~= prev + seq![x]);
                }
            }
            assert(d.take(end as int).to_set() =~= d.take(end - 1).to_set().insert(x)) by {
                Seq::<Seq<char>>::lemma_to_set_insert_commutes(d.take(end - 1), x);
                assert(d.take(end - 1).push(x) =~= d.take(end - 1) + seq![x]);
            }
        }
        assert(cur.to_set() =~= d.take(end as int).to_set().intersect(t.to_set()));
    }
}

/// How many topic words two notes fields share, and how many they have
/// together: the sizes of the intersection and of the union of their sets
/// of topic words.
pub fn topic_overlap(notes1: &str, notes2: &str) -> (r: (usize, usize))
    ensures
        ({
            let s1 = topic_words(notes1@).to_set();
            let s2 = topic_words(notes2@).to_set();
            &&& r.0 == s1.intersect(s2).len()
            &&& r.1 == s1.union(s2).len()
        }),
{
    let w1 = topic_words_of(notes1);
    let w2 = topic_words_of(notes2);
    let d1 = distinct_strings(&w1);
    let ghost t1 = views(w1@);
    let ghost t2 = views(w2@);
    let ghost e1 = views(d1@);
    let mut shared: usize = 0;
    let mut i: usize = 0;
    while i < d1.len()
        invariant
            i <= d1@.len(),
            e1 == views(d1@),
            t2 == views(w2@),
            shared == shared_upto(e1, t2, i as nat).len(),
            shared <= i,
        decreases d1.len() - i,
    {
        let c = count_strings(&w2, &d1[i]);
        proof {
            lemma_count_contains(t2, e1[i as int], w2@.len());
        }
        if c > 0 {
            shared = shared + 1;
        }
        i = i + 1;
    }
    let mut all: Vec<String> = Vec::new();
    let mut k: usize = 0;
    while k < w1.len()
        invariant
            k <= w1@.len(),
            views(all@) == t1.take(k as int),
            t1 == views(w1@),
        decreases w1.len() - k,
    {
        let ghost prev = all@;
        all.push(w1[k].clone());
        assert(views(all@) =~= views(prev).push(t1[k as int]));
        k = k + 1;
        assert(views(all@) =~= t1.take(k as int));
    }
    let mut q: usize = 0;
    while q < w2.len()
        invariant
            q <= w2@.len(),
            views(all@) == t1 + t2.take(q as int),
            t1 == views(w1@),
            t2 == views(w2@),
        decreases w2.len() - q,
    {
        let ghost prev = all@;
        all.push(w2[q].clone());
        assert(views(all@) =~= views(prev).push(t2[q as int]));
        q = q + 1;
        assert(views(all@) =~= t1 + t2.take(q as int));
    }
    let union_words = distinct_strings(&all);
    proof {
        assert(t1.take(t1.len() as int) =~= t1);
        assert(t2.take(t2.len() as int) =~= t2);
        let s1 = t1.to_set();
        let s2 = t2.to_set();
        lemma_distinct_set(t1);
        lemma_distinct_set(t1 + t2);
        lemma_shared(e1, t2, e1.len());
        assert(e1.take(e1.len() as int) =~= e1);
        let sh = shared_upto(e1, t2, e1.len());
        sh.unique_seq_to_set();
        assert((t1 + t2).to_set() =~= s1.union(s2)) by {
            assert forall|y: Seq<char>| (t1 + t2).contains(y) <==> s1.union(s2).contains(y) by {
                if (t1 + t2).contains(y) {
                    let j = choose|j: int| 0 <= j < (t1 + t2).len() && (t1 + t2)[j] == y;
                    if j < t1.len() {
                        assert(t1[j] == y);
                    } else {
                        assert(t2[j - t1.len()] == y);
                    }
                }
                if t1.contains(y) {
                    let j = choose|j: int| 0 <= j < t1.len() && t1[j] == y;
                    assert((t1 + t2)[j] == y);
                }
                if t2.contains(y) {
                    let j = choose|j: int| 0 <= j < t2.len() && t2[j] == y;
                    assert((t1 + t2)[t1.len() + j] == y);
                }
            }
        }
        distinct(t1 + t2).unique_seq_to_set();
    }
    (shared, union_words.len())
}

/// `count_in` is positive exactly for entries the sequence contains.
proof fn lemma_count_contains(s: Seq<Seq<char>>, x: Seq<char>, end: nat)
    requires
        end == s.len(),
    ensures
        (count_in(s, x, end) > 0) == s.contains(x),
{
    lemma_count_prefix(s, x, end);
}

proof fn lemma_count_prefix(s: Seq<Seq<char>>, x: Seq<char>, end: nat)
    requires
        end <= s.len(),
    ensures
        (count_in(s, x, end) > 0) == (exists|i: int| 0 <= i < end && s[i] == x),
    decreases end,
{
    if end > 0 {
        lemma_count_prefix(s, x, (end - 1) as nat);
        if s[end - 1] == x {
            assert(exists|i: int| 0 <= i < end && s[i] == x);
        } else {
            if exists|i: int| 0 <= i < end && s[i] == x {
                let i = choose|i: int| 0 <= i < end && s[i] == x;
                assert(i < end - 1);
            }
        }
    }
}

/// Stripping a topic word removes exactly the characters `. , ; : ! ?` at
/// its ends: such a character added at the end or the front of a word is
/// stripped away with no other effect, and any other character there is
/// kept.
pub proof fn law_topic_punctuation_stripped(s: Seq<char>, c: char)
    ensures
        (c == '.' || c == ',' || c == ';' || c == ':' || c == '!' || c == '?') ==> strip_punct_end(s.push(c))
            == strip_punct_end(s) && strip_punct_start(seq![c] + s) == strip_punct_start(s),
        !(c == '.' || c == ',' || c == ';' || c == ':' || c == '!' || c == '?') ==> strip_punct_end(s.push(c)) == s.push(
            c,
        ) && strip_punct_start(seq![c] + s) == seq![c] + s,
{
    assert(s.push(c).drop_last() =~= s);
    assert((seq![c] + s).drop_first() =~= s);
    assert(s.push(c).last() == c);
    assert((seq![c] + s)[0] == c);
}

proof fn lemma_strip_end_prefix(s: Seq<char>)
    ensures
        strip_punct_end(s).len() <= s.len(),
        strip_punct_end(s) == s.subrange(0, strip_punct_end(s).len() as int),
        strip_punct_end(s).len() > 0 ==> !is_topic_punct(strip_punct_end(s).last()),
    decreases s.len(),
{
    if s.len() > 0 && is_topic_punct(s.last()) {
        lemma_strip_end_prefix(s.drop_last());
        let r = strip_punct_end(s.drop_last());
        assert(s.drop_last().subrange(0, r.len() as int) =~= s.subrange(0, r.len() as int));
    } else {
        assert(s.subrange(0, s.len() as int) =~= s);
    }
}

proof fn lemma_strip_start_no_punct(s: Seq<char>)
    ensures
        strip_punct_start(s).len() > 0 ==> !is_topic_punct(strip_punct_start(s)[0]),
    decreases s.len(),
{
    if s.len() > 0 && is_topic_punct(s[0]) {
        lemma_strip_start_no_punct(s.drop_first());
    }
}

/// A topic word neither starts nor ends with any of `. , ; : ! ?`.
pub proof fn law_topic_word_has_no_end_punctuation(w: Seq<char>)
    ensures
        topic_word(w).len() > 0 ==> {
            let f = topic_word(w)[0];
            let l = topic_word(w).last();
            &&& !(f == '.' || f == ',' || f == ';' || f == ':' || f == '!' || f == '?')
            &&& !(l == '.' || l == ',' || l == ';' || l == ':' || l == '!' || l == '?')
        },
{
    let a = strip_punct_start(lowercase_of(w));
    lemma_strip_start_no_punct(lowercase_of(w));
    lemma_strip_end_prefix(a);
    let t = topic_word(w);
    if t.len() > 0 {
        assert(t[0] == a[0]);
    }
}

/// The topic words of a notes field are exactly the topic words of its
/// whitespace-separated words that take more than three bytes in UTF-8: each
/// topic word is longer than that, and each such word's topic word is one of
/// them.
pub proof fn law_topic_words_are_the_long_ones(notes: Seq<char>)
    ensures
        forall|i: int|
            0 <= i < topic_words(notes).len() ==> vstd::utf8::encode_utf8(#[trigger] topic_words(notes)[i]).len() > 3,
        forall|k: int|
            0 <= k < whitespace_words(notes).len() && vstd::utf8::encode_utf8(
                topic_word(#[trigger] whitespace_words(notes)[k]),
            ).len() > 3 ==> topic_words(notes).contains(topic_word(whitespace_words(notes)[k])),
{
    let ws = whitespace_words(notes);
    lemma_long_topic_words(ws, ws.len());
}

proof fn lemma_long_topic_words(ws: Seq<Seq<char>>, end: nat)
    requires
        end <= ws.len(),
    ensures
        forall|i: int|
            0 <= i < long_topic_words(ws, end).len() ==> vstd::utf8::encode_utf8(#[trigger] long_topic_words(ws, end)[i]).len()
                > 3,
        forall|k: int|
            0 <= k < end && vstd::utf8::encode_utf8(topic_word(#[trigger] ws[k])).len() > 3 ==> long_topic_words(
                ws,
                end,
            ).contains(topic_word(ws[k])),
    decreases end,
{
    if end > 0 {
        lemma_long_topic_words(ws, (end - 1) as nat);
        let prev = long_topic_words(ws, (end - 1) as nat);
        let cur = long_topic_words(ws, end);
        let t = topic_word(ws[end - 1]);
        assert forall|i: int| 0 <= i < cur.len() implies vstd::utf8::encode_utf8(#[trigger] cur[i]).len() > 3 by {
            if i < prev.len() {
                assert(cur[i] == prev[i]);
            }
        }
        assert forall|k: int|
            0 <= k < end && vstd::utf8::encode_utf8(topic_word(#[trigger] ws[k])).len() > 3 implies cur.contains(
            topic_word(ws[k]),
        ) by {
            if k < end - 1 {
                assert(prev.contains(topic_word(ws[k])));
                let q = choose|q: int| 0 <= q < prev.len() && prev[q] == topic_word(ws[k]);
                assert(cur[q] == prev[q]);
            } else {
                assert(cur[prev.len() as int] == t);
            }
        }
    }
}

} // verus!
