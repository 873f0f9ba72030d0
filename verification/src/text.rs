//! Character-level text helpers: whitespace, trimming, case mapping,
//! substring search and decimal conversion, each specified over `Seq<char>`.
use vstd::prelude::*;

verus! {

// ---------------------------------------------------------------------------
// Whitespace
// ---------------------------------------------------------------------------

/// The Unicode `White_Space` property (the set `char::is_whitespace` tests).
pub open spec fn is_ws(c: char) -> bool {
    let u = c as u32;
    ||| 0x09 <= u <= 0x0D
    ||| u == 0x20
    ||| u == 0x85
    ||| u == 0xA0
    ||| u == 0x1680
    ||| 0x2000 <= u <= 0x200A
    ||| u == 0x2028
    ||| u == 0x2029
    ||| u == 0x202F
    ||| u == 0x205F
    ||| u == 0x3000
}

/// Whether `c` is a Unicode whitespace character.
pub fn is_whitespace_char(c: char) -> (b: bool)
    ensures
        b == is_ws(c),
{
    let u = c as u32;
    (0x09 <= u && u <= 0x0D) || u == 0x20 || u == 0x85 || u == 0xA0 || u == 0x1680 || (0x2000
        <= u && u <= 0x200A) || u == 0x2028 || u == 0x2029 || u == 0x202F || u == 0x205F || u
        == 0x3000
}

/// `s` with every whitespace character removed.
pub open spec fn strip_ws(s: Seq<char>) -> Seq<char>
    decreases s.len(),
{
    if s.len() == 0 {
        s
    } else if is_ws(s.last()) {
        strip_ws(s.drop_last())
    } else {
        strip_ws(s.drop_last()).push(s.last())
    }
}

/// `s` without its leading whitespace.
pub open spec fn trim_start(s: Seq<char>) -> Seq<char>
    decreases s.len(),
{
    if s.len() > 0 && is_ws(s[0]) {
        trim_start(s.drop_first())
    } else {
        s
    }
}

/// `s` without its trailing whitespace.
pub open spec fn trim_end(s: Seq<char>) -> Seq<char>
    decreases s.len(),
{
    if s.len() > 0 && is_ws(s.last()) {
        trim_end(s.drop_last())
    } else {
        s
    }
}

/// `s` without leading and trailing whitespace (what `str::trim` returns).
pub open spec fn trim_spec(s: Seq<char>) -> Seq<char> {
    trim_end(trim_start(s))
}

// ---------------------------------------------------------------------------
// Conversions between strings and character vectors
// ---------------------------------------------------------------------------

/// The characters of `s`, in order (`str::chars` collected into a vector).
#[verifier::external_body]
pub(crate) fn chars_of(s: &str) -> (v: Vec<char>)
    ensures
        v@ == s@,
{
    s.chars().collect()
}

/// The string made of the characters of `v`, in order
/// (`String: FromIterator<&char>`).
#[verifier::external_body]
pub(crate) fn string_of(v: &Vec<char>) -> (s: String)
    ensures
        s@ == v@,
{
    v.iter().collect()
}

// ---------------------------------------------------------------------------
// Case mapping
// ---------------------------------------------------------------------------

/// The result of `str::to_lowercase` on a string with the characters `s`
/// (the full Unicode lowercase mapping, which the standard library defines).
pub uninterp spec fn lowercase_of(s: Seq<char>) -> Seq<char>;

/// The result of `str::to_uppercase` on a string with the characters `s`.
pub uninterp spec fn uppercase_of(s: Seq<char>) -> Seq<char>;

/// Calls `str::to_lowercase`; its result is named `lowercase_of` of the
/// argument's characters. Nothing more is claimed of it.
#[verifier::external_body]
pub(crate) fn to_lowercase(s: &str) -> (r: String)
    ensures
        r@ == lowercase_of(s@),
{
    s.to_lowercase()
}

/// Calls `str::to_uppercase`; its result is named `uppercase_of` of the
/// argument's characters. Nothing more is claimed of it.
#[verifier::external_body]
pub(crate) fn to_uppercase(s: &str) -> (r: String)
    ensures
        r@ == uppercase_of(s@),
{
    s.to_uppercase()
}

// ---------------------------------------------------------------------------
// Whitespace removal and trimming
// ---------------------------------------------------------------------------

/// The characters of `v` that are not whitespace, in order.
pub fn strip_whitespace(v: &Vec<char>) -> (r: Vec<char>)
    ensures
        r@ == strip_ws(v@),
{
    let mut r: Vec<char> = Vec::new();
    let mut i: usize = 0;
    while i < v.len()
        invariant
            i <= v.len(),
            r@ == strip_ws(v@.take(i as int)),
        decreases v.len() - i,
    {
        assert(v@.take(i + 1).drop_last() =~= v@.take(i as int));
        if !is_whitespace_char(v[i]) {
            r.push(v[i]);
        }
        i = i + 1;
    }
    assert(v@.take(v.len() as int) =~= v@);
    r
}

proof fn lemma_trim_start(s: Seq<char>, a: int)
    requires
        0 <= a <= s.len(),
        forall|k: int| 0 <= k < a ==> is_ws(#[trigger] s[k]),
        a == s.len() || !is_ws(s[a]),
    ensures
        trim_start(s) == s.subrange(a, s.len() as int),
    decreases a,
{
    if a == 0 {
        assert(s.subrange(0, s.len() as int) =~= s);
    } else {
        assert(is_ws(s[0]));
        let t = s.drop_first();
        assert forall|k: int| 0 <= k < a - 1 implies is_ws(#[trigger] t[k]) by {
            assert(t[k] == s[k + 1]);
        }
        lemma_trim_start(t, a - 1);
        assert(t.subrange(a - 1, t.len() as int) =~= s.subrange(a, s.len() as int));
    }
}

proof fn lemma_trim_end(s: Seq<char>, b: int)
    requires
        0 <= b <= s.len(),
        forall|k: int| b <= k < s.len() ==> is_ws(#[trigger] s[k]),
        b == 0 || !is_ws(s[b - 1]),
    ensures
        trim_end(s) == s.subrange(0, b),
    decreases s.len() - b,
{
    if b == s.len() {
        assert(s.subrange(0, b) =~= s);
    } else {
        assert(is_ws(s.last()));
        let t = s.drop_last();
        lemma_trim_end(t, b);
        assert(t.subrange(0, b) =~= s.subrange(0, b));
    }
}

/// `v` without leading and trailing whitespace.
pub fn trim_chars(v: &Vec<char>) -> (r: Vec<char>)
    ensures
        r@ == trim_spec(v@),
{
    let n = v.len();
    let mut a: usize = 0;
    while a < n && is_whitespace_char(v[a])
        invariant
            a <= n,
            n == v.len(),
            forall|k: int| 0 <= k < a ==> is_ws(#[trigger] v@[k]),
        decreases n - a,
    {
        a = a + 1;
    }
    proof {
        lemma_trim_start(v@, a as int);
    }
    let ghost t = v@.subrange(a as int, n as int);
    let mut b: usize = n;
    while b > a && is_whitespace_char(v[b - 1])
        invariant
            a <= b <= n,
            n == v.len(),
            forall|k: int| b <= k < n ==> is_ws(#[trigger] v@[k]),
        decreases b - a,
    {
        b = b - 1;
    }
    proof {
        assert forall|k: int| b - a <= k < t.len() implies is_ws(#[trigger] t[k]) by {
            assert(t[k] == v@[k + a]);
        }
        if b - a > 0 {
            assert(t[b - a - 1] == v@[b - 1]);
        }
        lemma_trim_end(t, b - a);
    }
    let mut r: Vec<char> = Vec::new();
    let mut i: usize = a;
    while i < b
        invariant
            a <= i <= b <= n,
            n == v.len(),
            r@ == v@.subrange(a as int, i as int),
        decreases b - i,
    {
        r.push(v[i]);
        i = i + 1;
        assert(r@ =~= v@.subrange(a as int, i as int));
    }
    assert(t.subrange(0, b - a) =~= r@);
    r
}

/// The string `s` without leading and trailing whitespace.
pub fn trim_text(s: &str) -> (r: String)
    ensures
        r@ == trim_spec(s@),
{
    let v = chars_of(s);
    let t = trim_chars(&v);
    string_of(&t)
}

// ---------------------------------------------------------------------------
// Substring search
// ---------------------------------------------------------------------------

/// `p` occurs in `s` starting at index `i`.
pub open spec fn occurs_at(s: Seq<char>, p: Seq<char>, i: int) -> bool {
    &&& 0 <= i
    &&& i + p.len() <= s.len()
    &&& forall|k: int| 0 <= k < p.len() ==> s[i + k] == #[trigger] p[k]
}

/// `p` is a substring of `s` (what `str::contains` tests for a string pattern).
pub open spec fn has_substring(s: Seq<char>, p: Seq<char>) -> bool {
    exists|i: int| occurs_at(s, p, i)
}

/// Whether `p` occurs in `s` at index `i`.
pub fn occurs_at_exec(s: &Vec<char>, p: &Vec<char>, i: usize) -> (b: bool)
    ensures
        b == occurs_at(s@, p@, i as int),
{
    if p.len() > s.len() || i > s.len() - p.len() {
        return false;
    }
    let mut k: usize = 0;
    while k < p.len()
        invariant
            k <= p.len(),
            i + p.len() <= s.len(),
            forall|j: int| 0 <= j < k ==> s@[i + j] == #[trigger] p@[j],
        decreases p.len() - k,
    {
        if s[i + k] != p[k] {
            return false;
        }
        k = k + 1;
    }
    true
}

/// Whether `p` is a substring of `s`.
pub fn contains_chars(s: &Vec<char>, p: &Vec<char>) -> (b: bool)
    ensures
        b == has_substring(s@, p@),
{
    if p.len() > s.len() {
        assert(forall|i: int| !occurs_at(s@, p@, i));
        return false;
    }
    let last = s.len() - p.len();
    let mut i: usize = 0;
    while i <= last
        invariant
            last + p.len() == s.len(),
            forall|j: int| 0 <= j < i ==> !occurs_at(s@, p@, j),
        decreases last + 1 - i,
    {
        if occurs_at_exec(s, p, i) {
            return true;
        }
        i = i + 1;
    }
    assert forall|j: int| !occurs_at(s@, p@, j) by {
        if 0 <= j && j < i {
        }
    }
    false
}

/// Whether the string `s` contains the string `p`.
pub fn contains_text(s: &str, p: &str) -> (b: bool)
    ensures
        b == has_substring(s@, p@),
{
    let sv = chars_of(s);
    let pv = chars_of(p);
    contains_chars(&sv, &pv)
}

// ---------------------------------------------------------------------------
// Removing every occurrence of a pattern
// ---------------------------------------------------------------------------

/// `s` with every occurrence of `p` removed, scanning left to right without
/// overlap (what `str::replace(p, "")` returns). An empty `p` removes nothing.
pub open spec fn remove_all(s: Seq<char>, p: Seq<char>) -> Seq<char>
    decreases s.len(),
{
    if p.len() == 0 || s.len() == 0 {
        s
    } else if occurs_at(s, p, 0) {
        remove_all(s.subrange(p.len() as int, s.len() as int), p)
    } else {
        seq![s[0]] + remove_all(s.drop_first(), p)
    }
}

/// `s` with every occurrence of `p` removed.
pub fn remove_all_chars(s: &Vec<char>, p: &Vec<char>) -> (r: Vec<char>)
    ensures
        r@ == remove_all(s@, p@),
{
    if p.len() == 0 {
        let mut r: Vec<char> = Vec::new();
        let mut i: usize = 0;
        while i < s.len()
            invariant
                i <= s.len(),
                r@ == s@.take(i as int),
            decreases s.len() - i,
        {
            r.push(s[i]);
            i = i + 1;
            assert(r@ =~= s@.take(i as int));
        }
        assert(s@.take(s.len() as int) =~= s@);
        return r;
    }
    let mut r: Vec<char> = Vec::new();
    let mut i: usize = 0;
    assert(s@.subrange(0, s.len() as int) =~= s@);
    assert(r@ + remove_all(s@, p@) =~= remove_all(s@, p@));
    while i < s.len()
        invariant
            i <= s.len(),
            p.len() > 0,
            r@ + remove_all(s@.subrange(i as int, s.len() as int), p@) == remove_all(s@, p@),
        decreases s.len() - i,
    {
        let ghost rest = s@.subrange(i as int, s.len() as int);
        if occurs_at_exec(s, p, i) {
            proof {
                assert forall|k: int| 0 <= k < p@.len() implies rest[k] == #[trigger] p@[k] by {
                    assert(rest[k] == s@[i + k]);
                }
                assert(occurs_at(rest, p@, 0));
                assert(rest.subrange(p@.len() as int, rest.len() as int) =~= s@.subrange(
                    i + p@.len(),
                    s.len() as int,
                ));
            }
            i = i + p.len();
        } else {
            proof {
                if occurs_at(rest, p@, 0) {
                    assert forall|k: int| 0 <= k < p@.len() implies s@[i + k] == #[trigger] p@[k] by {
                        assert(rest[k] == s@[i + k]);
                    }
                    assert(false);
                }
                assert(rest.drop_first() =~= s@.subrange(i + 1, s.len() as int));
                assert(rest[0] == s@[i as int]);
            }
            r.push(s[i]);
            proof {
                assert(r@ + remove_all(s@.subrange(i + 1, s.len() as int), p@) =~= (r@.drop_last()
                    + seq![s@[i as int]]) + remove_all(s@.subrange(i + 1, s.len() as int), p@));
            }
            i = i + 1;
        }
    }
    assert(remove_all(s@.subrange(s.len() as int, s.len() as int), p@) =~= Seq::<char>::empty());
    assert(r@ + Seq::<char>::empty() =~= r@);
    r
}

// ---------------------------------------------------------------------------
// Replacing, splitting and cutting
// ---------------------------------------------------------------------------

/// `s` with every occurrence of `p` replaced by `r`, scanning left to right
/// without overlap (what `str::replace(p, r)` returns for a non-empty `p`).
pub open spec fn replace_all(s: Seq<char>, p: Seq<char>, r: Seq<char>) -> Seq<char>
    decreases s.len(),
{
    if p.len() == 0 || s.len() == 0 {
        s
    } else if occurs_at(s, p, 0) {
        r + replace_all(s.subrange(p.len() as int, s.len() as int), p, r)
    } else {
        seq![s[0]] + replace_all(s.drop_first(), p, r)
    }
}

/// `s` with every occurrence of the non-empty `p` replaced by `r`.
pub fn replace_all_chars(s: &Vec<char>, p: &Vec<char>, r: &Vec<char>) -> (out: Vec<char>)
    requires
        p@.len() > 0,
    ensures
        out@ == replace_all(s@, p@, r@),
{
    let mut out: Vec<char> = Vec::new();
    let mut i: usize = 0;
    assert(s@.subrange(0, s.len() as int) =~= s@);
    assert(out@ + replace_all(s@, p@, r@) =~= replace_all(s@, p@, r@));
    while i < s.len()
        invariant
            i <= s.len(),
            p.len() > 0,
            out@ + replace_all(s@.subrange(i as int, s.len() as int), p@, r@) == replace_all(s@, p@, r@),
        decreases s.len() - i,
    {
        let ghost rest = s@.subrange(i as int, s.len() as int);
        if occurs_at_exec(s, p, i) {
            proof {
                assert forall|k: int| 0 <= k < p@.len() implies rest[k] == #[trigger] p@[k] by {
                    assert(rest[k] == s@[i + k]);
                }
                assert(occurs_at(rest, p@, 0));
                assert(rest.subrange(p@.len() as int, rest.len() as int) =~= s@.subrange(
                    i + p@.len(),
                    s.len() as int,
                ));
            }
            let ghost before = out@;
            let mut k: usize = 0;
            while k < r.len()
                invariant
                    k <= r@.len(),
                    out@ == before + r@.take(k as int),
                decreases r.len() - k,
            {
                out.push(r[k]);
                k = k + 1;
                assert(out@ =~= before + r@.take(k as int));
            }
            proof {
                assert(r@.take(r@.len() as int) =~= r@);
                assert(out@ + replace_all(s@.subrange(i + p@.len(), s.len() as int), p@, r@) =~= before + (r@
                    + replace_all(s@.subrange(i + p@.len(), s.len() as int), p@, r@)));
            }
            i = i + p.len();
        } else {
            proof {
                if occurs_at(rest, p@, 0) {
                    assert forall|k: int| 0 <= k < p@.len() implies s@[i + k] == #[trigger] p@[k] by {
                        assert(rest[k] == s@[i + k]);
                    }
                    assert(false);
                }
                assert(rest.drop_first() =~= s@.subrange(i + 1, s.len() as int));
                assert(rest[0] == s@[i as int]);
            }
            out.push(s[i]);
            proof {
                assert(out@ + replace_all(s@.subrange(i + 1, s.len() as int), p@, r@) =~= (out@.drop_last()
                    + seq![s@[i as int]]) + replace_all(s@.subrange(i + 1, s.len() as int), p@, r@));
            }
            i = i + 1;
        }
    }
    assert(replace_all(s@.subrange(s.len() as int, s.len() as int), p@, r@) =~= Seq::<char>::empty());
    assert(out@ + Seq::<char>::empty() =~= out@);
    out
}

/// A comma or a semicolon.
pub open spec fn is_list_separator(c: char) -> bool {
    c == ',' || c == ';'
}

/// The pieces of `s` between commas and semicolons (what `str::split` on
/// `[',', ';']` gives): one more piece than separators, empty pieces kept.
pub open spec fn split_list(s: Seq<char>) -> Seq<Seq<char>>
    decreases s.len(),
{
    if s.len() == 0 {
        seq![Seq::empty()]
    } else {
        let prev = split_list(s.drop_last());
        if is_list_separator(s.last()) {
            prev.push(Seq::empty())
        } else {
            prev.update(prev.len() - 1, prev.last().push(s.last()))
        }
    }
}

proof fn lemma_split_list_nonempty(s: Seq<char>)
    ensures
        split_list(s).len() >= 1,
    decreases s.len(),
{
    if s.len() > 0 {
        lemma_split_list_nonempty(s.drop_last());
    }
}

/// The pieces of `s` between commas and semicolons.
pub fn split_list_chars(s: &Vec<char>) -> (r: Vec<Vec<char>>)
    ensures
        r@.len() == split_list(s@).len(),
        forall|i: int| 0 <= i < r@.len() ==> #[trigger] r@[i]@ == split_list(s@)[i],
{
    let mut pieces: Vec<Vec<char>> = Vec::new();
    pieces.push(Vec::new());
    assert(s@.take(0) =~= Seq::<char>::empty());
    let mut i: usize = 0;
    while i < s.len()
        invariant
            i <= s@.len(),
            pieces@.len() == split_list(s@.take(i as int)).len(),
            pieces@.len() >= 1,
            forall|k: int| 0 <= k < pieces@.len() ==> #[trigger] pieces@[k]@ == split_list(s@.take(i as int))[k],
        decreases s.len() - i,
    {
        let c = s[i];
        let ghost prev = split_list(s@.take(i as int));
        assert(s@.take(i + 1).drop_last() =~= s@.take(i as int));
        assert(s@.take(i + 1).last() == c);
        let ghost old_pieces = pieces@;
        if c == ',' || c == ';' {
            pieces.push(Vec::new());
            proof {
                assert forall|k: int| 0 <= k < pieces@.len() implies #[trigger] pieces@[k]@ == split_list(s@.take(i + 1))[k] by {
                    if k < old_pieces.len() {
                        assert(pieces@[k] == old_pieces[k]);
                    }
                }
            }
        } else {
            let last = pieces.len() - 1;
            pieces[last].push(c);
            proof {
                assert forall|k: int| 0 <= k < pieces@.len() implies #[trigger] pieces@[k]@ == split_list(s@.take(i + 1))[k] by {
                    if k < last {
                        assert(pieces@[k] == old_pieces[k]);
                    }
                }
            }
        }
        i = i + 1;
    }
    assert(s@.take(s@.len() as int) =~= s@);
    pieces
}

/// The part of `s` before the first occurrence of the non-empty `p` (all of
/// `s` when `p` does not occur); what `s.split(p).next()` gives.
pub open spec fn before_first(s: Seq<char>, p: Seq<char>) -> Seq<char>
    decreases s.len(),
{
    if s.len() == 0 || p.len() == 0 || occurs_at(s, p, 0) {
        Seq::empty()
    } else {
        seq![s[0]] + before_first(s.drop_first(), p)
    }
}

/// The part of `s` before the first occurrence of the non-empty `p`.
pub fn before_first_chars(s: &Vec<char>, p: &Vec<char>) -> (r: Vec<char>)
    requires
        p@.len() > 0,
    ensures
        r@ == before_first(s@, p@),
{
    let mut r: Vec<char> = Vec::new();
    let mut i: usize = 0;
    assert(s@.subrange(0, s.len() as int) =~= s@);
    assert(r@ + before_first(s@, p@) =~= before_first(s@, p@));
    while i < s.len()
        invariant
            i <= s.len(),
            p.len() > 0,
            r@ + before_first(s@.subrange(i as int, s.len() as int), p@) == before_first(s@, p@),
        decreases s.len() - i,
    {
        let ghost rest = s@.subrange(i as int, s.len() as int);
        if occurs_at_exec(s, p, i) {
            proof {
                assert forall|k: int| 0 <= k < p@.len() implies rest[k] == #[trigger] p@[k] by {
                    assert(rest[k] == s@[i + k]);
                }
                assert(occurs_at(rest, p@, 0));
                assert(r@ + Seq::<char>::empty() =~= r@);
            }
            return r;
        }
        proof {
            if occurs_at(rest, p@, 0) {
                assert forall|k: int| 0 <= k < p@.len() implies s@[i + k] == #[trigger] p@[k] by {
                    assert(rest[k] == s@[i + k]);
                }
                assert(false);
            }
            assert(rest.drop_first() =~= s@.subrange(i + 1, s.len() as int));
            assert(rest[0] == s@[i as int]);
        }
        r.push(s[i]);
        proof {
            assert(r@ + before_first(s@.subrange(i + 1, s.len() as int), p@) =~= (r@.drop_last() + seq![s@[i as int]])
                + before_first(s@.subrange(i + 1, s.len() as int), p@));
        }
        i = i + 1;
    }
    assert(before_first(s@.subrange(s.len() as int, s.len() as int), p@) =~= Seq::<char>::empty());
    assert(r@ + Seq::<char>::empty() =~= r@);
    r
}

/// Whether `char::is_alphanumeric` holds of `c` (alphabetic or numeric in
/// the Unicode sense).
pub uninterp spec fn alphanumeric(c: char) -> bool;

/// Calls `char::is_alphanumeric`; its result is named `alphanumeric`.
#[verifier::external_body]
pub(crate) fn is_alphanumeric_char(c: char) -> (r: bool)
    ensures
        r == alphanumeric(c),
{
    c.is_alphanumeric()
}

/// The characters of `s` for which `char::is_alphanumeric` holds, in order.
pub open spec fn alphanumerics(s: Seq<char>) -> Seq<char> {
    s.filter(|c: char| alphanumeric(c))
}

/// The alphanumeric characters of `v`, in order.
pub fn keep_alphanumerics(v: &Vec<char>) -> (r: Vec<char>)
    ensures
        r@ == alphanumerics(v@),
{
    let mut r: Vec<char> = Vec::new();
    let mut i: usize = 0;
    while i < v.len()
        invariant
            i <= v@.len(),
            r@ == alphanumerics(v@.take(i as int)),
        decreases v.len() - i,
    {
        let c = v[i];
        assert(v@.take(i + 1).drop_last() =~= v@.take(i as int));
        assert(v@.take(i + 1).last() == c);
        if is_alphanumeric_char(c) {
            r.push(c);
        }
        proof {
            reveal(Seq::filter);
        }
        i = i + 1;
    }
    assert(v@.take(v@.len() as int) =~= v@);
    r
}

// ---------------------------------------------------------------------------
// Decimal numbers
// ---------------------------------------------------------------------------

/// The value of an ASCII digit.
pub open spec fn digit_value(c: char) -> int {
    c as int - '0' as int
}

/// Every character of `s` is an ASCII digit.
pub open spec fn all_ascii_digits(s: Seq<char>) -> bool {
    forall|k: int| 0 <= k < s.len() ==> '0' <= #[trigger] s[k] <= '9'
}

/// The number written by the decimal digits `s` (most significant first).
pub open spec fn digits_number(s: Seq<char>) -> int
    decreases s.len(),
{
    if s.len() == 0 {
        0
    } else {
        digits_number(s.drop_last()) * 10 + digit_value(s.last())
    }
}

/// What `usize::from_str` gives: an optional `+`, then one or more ASCII digits
/// whose value fits in `usize`; anything else is refused (`None`).
pub open spec fn parse_usize_spec(s: Seq<char>) -> Option<nat> {
    let d = if s.len() > 0 && s[0] == '+' {
        s.drop_first()
    } else {
        s
    };
    if d.len() > 0 && all_ascii_digits(d) && digits_number(d) <= usize::MAX {
        Some(digits_number(d) as nat)
    } else {
        None
    }
}

proof fn lemma_digits_number_grows(s: Seq<char>, i: int)
    requires
        0 <= i <= s.len(),
        all_ascii_digits(s),
    ensures
        0 <= digits_number(s.take(i)) <= digits_number(s),
    decreases s.len() - i,
{
    if i == s.len() {
        assert(s.take(i) =~= s);
        lemma_digits_number_nonneg(s);
    } else {
        lemma_digits_number_grows(s, i + 1);
        assert(s.take(i + 1).drop_last() =~= s.take(i));
        lemma_digits_number_nonneg(s.take(i));
        assert('0' <= s[i] <= '9');
    }
}

proof fn lemma_digits_number_nonneg(s: Seq<char>)
    requires
        all_ascii_digits(s),
    ensures
        0 <= digits_number(s),
    decreases s.len(),
{
    if s.len() > 0 {
        assert(all_ascii_digits(s.drop_last()) ) by {
            assert forall|k: int| 0 <= k < s.drop_last().len() implies '0' <= #[trigger] s.drop_last()[k] <= '9' by {
                assert(s.drop_last()[k] == s[k]);
            }
        }
        lemma_digits_number_nonneg(s.drop_last());
        assert('0' <= s.last() <= '9');
    }
}

/// Parses `s` as `usize::from_str` does (`None` where it reports an error).
pub fn parse_usize(s: &str) -> (r: Option<usize>)
    ensures
        match r {
            Some(n) => parse_usize_spec(s@) == Some(n as nat),
            None => parse_usize_spec(s@) is None,
        },
{
    let v = chars_of(s);
    let start: usize = if v.len() > 0 && v[0] == '+' {
        1
    } else {
        0
    };
    let ghost d = v@.subrange(start as int, v@.len() as int);
    assert(d =~= (if s@.len() > 0 && s@[0] == '+' {
        s@.drop_first()
    } else {
        s@
    }));
    if start >= v.len() {
        return None;
    }
    let mut total: usize = 0;
    let mut i: usize = start;
    while i < v.len()
        invariant
            start <= i <= v.len(),
            v@ == s@,
            d == v@.subrange(start as int, v@.len() as int),
            d == (if s@.len() > 0 && s@[0] == '+' {
                s@.drop_first()
            } else {
                s@
            }),
            all_ascii_digits(d.take(i - start)),
            total as int == digits_number(d.take(i - start)),
        decreases v.len() - i,
    {
        let c = v[i];
        let ghost t = d.take(i + 1 - start);
        assert(t.drop_last() =~= d.take(i - start));
        assert(t.last() == c);
        if !('0' <= c && c <= '9') {
            proof {
                assert(!all_ascii_digits(d)) by {
                    assert(d[i - start] == c);
                }
            }
            return None;
        }
        let dv = (c as u32 - '0' as u32) as usize;
        assert(dv as int == digit_value(c));
        assert(all_ascii_digits(t)) by {
            assert forall|k: int| 0 <= k < t.len() implies '0' <= #[trigger] t[k] <= '9' by {
                if k < t.len() - 1 {
                    assert(t[k] == d.take(i - start)[k]);
                }
            }
        }
        if total > (usize::MAX - dv) / 10 {
            proof {
                assert(digits_number(t) > usize::MAX) by (nonlinear_arith)
                    requires
                        digits_number(t) == total * 10 + dv,
                        total > (usize::MAX - dv) / 10,
                        dv <= 9,
                ;
                if all_ascii_digits(d) {
                    lemma_digits_number_grows(d, i + 1 - start);
                }
            }
            return None;
        }
        assert(total * 10 + dv <= usize::MAX) by (nonlinear_arith)
            requires
                total <= (usize::MAX - dv) / 10,
                dv <= 9,
        ;
        total = total * 10 + dv;
        i = i + 1;
    }
    assert(d.take(v.len() - start) =~= d);
    Some(total)
}

/// The decimal digits of `n` (no sign, no leading zeros; `"0"` for zero).
pub open spec fn nat_digits(n: nat) -> Seq<char>
    decreases n,
{
    if n < 10 {
        seq![(n + '0' as nat) as char]
    } else {
        nat_digits(n / 10).push(((n % 10) + '0' as nat) as char)
    }
}

/// The decimal text of `x` as `Display` writes an integer: a `-` before
/// negative numbers, then the digits.
pub open spec fn int_text(x: int) -> Seq<char> {
    if x < 0 {
        seq!['-'] + nat_digits((-x) as nat)
    } else {
        nat_digits(x as nat)
    }
}

/// The decimal digits of `m`.
fn digits_of(m: u64) -> (r: Vec<char>)
    ensures
        r@ == nat_digits(m as nat),
{
    let ghost n: nat = m as nat;
    let mut m = m;
    let mut acc: Vec<char> = Vec::new();
    while m >= 10
        invariant
            nat_digits(n) == nat_digits(m as nat) + acc@,
        decreases m,
    {
        let d = (m % 10) as u32;
        let c = char_from_digit(d);
        proof {
            assert(nat_digits(m as nat) == nat_digits((m / 10) as nat).push(c));
            assert(nat_digits((m / 10) as nat).push(c) + acc@ =~= nat_digits((m / 10) as nat) + (
            seq![c] + acc@));
        }
        acc.insert(0, c);
        assert(acc@ =~= seq![c] + acc@.drop_first());
        m = m / 10;
    }
    let c0 = char_from_digit(m as u32);
    acc.insert(0, c0);
    assert(acc@ =~= nat_digits(m as nat) + acc@.drop_first());
    acc
}

/// The decimal text of `x` (what `x.to_string()` gives).
pub fn i32_text(x: i32) -> (r: String)
    ensures
        r@ == int_text(x as int),
{
    let neg = x < 0;
    let m: u64 = if neg {
        (-(x as i64)) as u64
    } else {
        x as u64
    };
    let mut acc = digits_of(m);
    if neg {
        acc.insert(0, '-');
        assert(acc@ =~= seq!['-'] + nat_digits(m as nat));
    }
    string_of(&acc)
}

/// The decimal text of `x` (what `x.to_string()` gives).
pub fn usize_text(x: usize) -> (r: String)
    ensures
        r@ == nat_digits(x as nat),
{
    let acc = digits_of(x as u64);
    string_of(&acc)
}

/// The ASCII digit for `d < 10`.
fn char_from_digit(d: u32) -> (c: char)
    requires
        d < 10,
    ensures
        c == ((d as nat + '0' as nat) as char),
{
    let ds: [char; 10] = ['0', '1', '2', '3', '4', '5', '6', '7', '8', '9'];
    let c = ds[d as usize];
    assert(c == ((d as nat + '0' as nat) as char)) by {
        assert(ds@[d as int] == c);
    }
    c
}

// ---------------------------------------------------------------------------
// Roman numerals
// ---------------------------------------------------------------------------

/// The value of an upper-case Roman digit.
pub open spec fn roman_digit(c: char) -> Option<nat> {
    if c == 'I' {
        Some(1)
    } else if c == 'V' {
        Some(5)
    } else if c == 'X' {
        Some(10)
    } else if c == 'L' {
        Some(50)
    } else if c == 'C' {
        Some(100)
    } else if c == 'D' {
        Some(500)
    } else if c == 'M' {
        Some(1000)
    } else {
        None
    }
}

/// Reads the digits of `s` from the right, starting from the running total
/// `total` and the previously read digit `prev`: a digit smaller than the one
/// read just before it is subtracted, any other is added. `None` if a
/// character is not a Roman digit.
pub open spec fn roman_fold(s: Seq<char>, total: int, prev: int) -> Option<int>
    decreases s.len(),
{
    if s.len() == 0 {
        Some(total)
    } else {
        match roman_digit(s.last()) {
            None => None,
            Some(v) => roman_fold(
                s.drop_last(),
                if v < prev {
                    total - v
                } else {
                    total + v
                },
                v as int,
            ),
        }
    }
}

/// The value of the Roman numeral `s` after upper-casing it, when every
/// character is a Roman digit and the value fits in `usize`.
pub open spec fn roman_spec(s: Seq<char>) -> Option<nat> {
    roman_numeral_spec(uppercase_of(s))
}

/// The value of a numeral written in upper-case Roman digits, when every
/// character is such a digit and the value fits in `usize`.
pub open spec fn roman_numeral_spec(s: Seq<char>) -> Option<nat> {
    match roman_fold(s, 0, 0) {
        Some(t) => if 0 <= t <= usize::MAX {
            Some(t as nat)
        } else {
            None
        },
        None => None,
    }
}

/// The sum of all Roman digit values below the digit value `p`.
spec fn roman_sum_below(p: int) -> int {
    if p == 5 {
        1
    } else if p == 10 {
        6
    } else if p == 50 {
        16
    } else if p == 100 {
        66
    } else if p == 500 {
        166
    } else if p == 1000 {
        666
    } else {
        0
    }
}

spec fn is_roman_value(p: int) -> bool {
    p == 1 || p == 5 || p == 10 || p == 50 || p == 100 || p == 500 || p == 1000
}

/// The value of an upper-case Roman digit, as a number.
fn roman_digit_exec(c: char) -> (r: Option<u128>)
    ensures
        match r {
            Some(v) => roman_digit(c) == Some(v as nat) && is_roman_value(v as int),
            None => roman_digit(c) is None,
        },
{
    if c == 'I' {
        Some(1)
    } else if c == 'V' {
        Some(5)
    } else if c == 'X' {
        Some(10)
    } else if c == 'L' {
        Some(50)
    } else if c == 'C' {
        Some(100)
    } else if c == 'D' {
        Some(500)
    } else if c == 'M' {
        Some(1000)
    } else {
        None
    }
}

/// Converts a Roman numeral to its value: the numeral is upper-cased first,
/// and `None` comes back when a character is not a Roman digit or the value
/// does not fit in `usize`.
pub fn roman_to_int(roman: &str) -> (r: Option<usize>)
    ensures
        match r {
            Some(n) => roman_spec(roman@) == Some(n as nat),
            None => roman_spec(roman@) is None,
        },
{
    let upper = to_uppercase(roman);
    roman_numeral_value(upper.as_str())
}

/// The value of a numeral in upper-case Roman digits, read from the right: a
/// digit smaller than the digit after it is subtracted, any other is added.
/// `None` when a character is not an upper-case Roman digit or the value does
/// not fit in `usize`.
pub fn roman_numeral_value(numeral: &str) -> (r: Option<usize>)
    ensures
        match r {
            Some(n) => roman_numeral_spec(numeral@) == Some(n as nat),
            None => roman_numeral_spec(numeral@) is None,
        },
{
    let v = chars_of(numeral);
    let n = v.len();
    let mut total: u128 = 0;
    let mut prev: u128 = 0;
    let mut i: usize = n;
    assert(v@.take(n as int) =~= v@);
    while i > 0
        invariant
            i <= n,
            n == v.len(),
            v@ == numeral@,
            roman_fold(v@, 0, 0) == roman_fold(v@.take(i as int), total as int, prev as int),
            prev == 0 ==> total == 0,
            prev != 0 ==> is_roman_value(prev as int) && total > roman_sum_below(prev as int),
            total <= 1000 * (n - i),
        decreases i,
    {
        let c = v[i - 1];
        let ghost t = v@.take(i as int);
        assert(t.last() == c);
        assert(t.drop_last() =~= v@.take(i - 1));
        match roman_digit_exec(c) {
            None => {
                return None;
            },
            Some(d) => {
                if d < prev {
                    total = total - d;
                } else {
                    total = total + d;
                }
                prev = d;
            },
        }
        i = i - 1;
    }
    assert(v@.take(0) =~= Seq::<char>::empty());
    if total > usize::MAX as u128 {
        None
    } else {
        Some(total as usize)
    }
}

// ---------------------------------------------------------------------------
// Splitting on one character, and signed decimal numbers
// ---------------------------------------------------------------------------

/// The pieces of `s` between occurrences of `sep` (what `str::split` on a
/// character gives): one more piece than separators, empty pieces kept.
pub open spec fn split_on(s: Seq<char>, sep: char) -> Seq<Seq<char>>
    decreases s.len(),
{
    if s.len() == 0 {
        seq![Seq::empty()]
    } else {
        let prev = split_on(s.drop_last(), sep);
        if s.last() == sep {
            prev.push(Seq::empty())
        } else {
            prev.update(prev.len() - 1, prev.last().push(s.last()))
        }
    }
}

pub(crate) proof fn lemma_split_on_nonempty(s: Seq<char>, sep: char)
    ensures
        split_on(s, sep).len() >= 1,
    decreases s.len(),
{
    if s.len() > 0 {
        lemma_split_on_nonempty(s.drop_last(), sep);
    }
}

/// The pieces of `s` between occurrences of `sep`.
pub fn split_on_chars(s: &Vec<char>, sep: char) -> (r: Vec<Vec<char>>)
    ensures
        r@.len() == split_on(s@, sep).len(),
        forall|i: int| 0 <= i < r@.len() ==> #[trigger] r@[i]@ == split_on(s@, sep)[i],
{
    let mut pieces: Vec<Vec<char>> = Vec::new();
    pieces.push(Vec::new());
    assert(s@.take(0) =~= Seq::<char>::empty());
    let mut i: usize = 0;
    while i < s.len()
        invariant
            i <= s@.len(),
            pieces@.len() == split_on(s@.take(i as int), sep).len(),
            pieces@.len() >= 1,
            forall|k: int| 0 <= k < pieces@.len() ==> #[trigger] pieces@[k]@ == split_on(s@.take(i as int), sep)[k],
        decreases s.len() - i,
    {
        let c = s[i];
        assert(s@.take(i + 1).drop_last() =~= s@.take(i as int));
        assert(s@.take(i + 1).last() == c);
        let ghost old_pieces = pieces@;
        if c == sep {
            pieces.push(Vec::new());
            proof {
                assert forall|k: int| 0 <= k < pieces@.len() implies #[trigger] pieces@[k]@ == split_on(
                    s@.take(i + 1),
                    sep,
                )[k] by {
                    if k < old_pieces.len() {
                        assert(pieces@[k] == old_pieces[k]);
                    }
                }
            }
        } else {
            let last = pieces.len() - 1;
            pieces[last].push(c);
            proof {
                assert forall|k: int| 0 <= k < pieces@.len() implies #[trigger] pieces@[k]@ == split_on(
                    s@.take(i + 1),
                    sep,
                )[k] by {
                    if k < last {
                        assert(pieces@[k] == old_pieces[k]);
                    }
                }
            }
        }
        i = i + 1;
    }
    assert(s@.take(s@.len() as int) =~= s@);
    pieces
}

/// The first `end` pieces, each trimmed, the empty ones left out.
pub open spec fn trimmed_pieces(pieces: Seq<Seq<char>>, end: nat) -> Seq<Seq<char>>
    decreases end,
{
    if end == 0 {
        Seq::empty()
    } else {
        let prev = trimmed_pieces(pieces, (end - 1) as nat);
        let t = trim_spec(pieces[end - 1]);
        if t.len() > 0 {
            prev.push(t)
        } else {
            prev
        }
    }
}

/// The pieces of `s` between occurrences of `sep`, trimmed, the empty ones
/// left out.
pub fn split_trimmed(s: &str, sep: char) -> (r: Vec<String>)
    ensures
        r@.map_values(|t: String| t@) == trimmed_pieces(split_on(s@, sep), split_on(s@, sep).len()),
{
    let v = chars_of(s);
    let pieces = split_on_chars(&v, sep);
    let ghost ps = split_on(s@, sep);
    let mut r: Vec<String> = Vec::new();
    let mut i: usize = 0;
    while i < pieces.len()
        invariant
            i <= pieces@.len(),
            pieces@.len() == ps.len(),
            forall|k: int| 0 <= k < pieces@.len() ==> #[trigger] pieces@[k]@ == ps[k],
            r@.map_values(|t: String| t@) == trimmed_pieces(ps, i as nat),
        decreases pieces.len() - i,
    {
        let t = trim_chars(&pieces[i]);
        if t.len() > 0 {
            let ghost prev = r@;
            r.push(string_of(&t));
            assert(r@.map_values(|t: String| t@) =~= prev.map_values(|t: String| t@).push(t@));
        }
        i = i + 1;
    }
    r
}

/// What `i32::from_str` gives: an optional `+` or `-`, then one or more
/// ASCII digits, the value within the range of `i32`; anything else is
/// refused (`None`).
pub open spec fn parse_i32_spec(s: Seq<char>) -> Option<int> {
    let neg = s.len() > 0 && s[0] == '-';
    let d = if s.len() > 0 && (s[0] == '+' || s[0] == '-') {
        s.drop_first()
    } else {
        s
    };
    let limit: int = if neg {
        2147483648
    } else {
        2147483647
    };
    if d.len() > 0 && all_ascii_digits(d) && digits_number(d) <= limit {
        Some(
            if neg {
                -digits_number(d)
            } else {
                digits_number(d)
            },
        )
    } else {
        None
    }
}

/// Reads the digits `v[start..]` as a number no larger than `limit`; `None`
/// when there are none, one is not an ASCII digit, or the number is larger.
fn parse_digits(v: &Vec<char>, start: usize, limit: u64) -> (r: Option<u64>)
    requires
        start <= v@.len(),
        limit <= 1_000_000_000_000,
    ensures
        ({
            let d = v@.subrange(start as int, v@.len() as int);
            match r {
                Some(n) => d.len() > 0 && all_ascii_digits(d) && digits_number(d) <= limit && n == digits_number(d),
                None => !(d.len() > 0 && all_ascii_digits(d) && digits_number(d) <= limit),
            }
        }),
{
    let ghost d = v@.subrange(start as int, v@.len() as int);
    if start >= v.len() {
        return None;
    }
    let mut total: u64 = 0;
    let mut i: usize = start;
    while i < v.len()
        invariant
            start <= i <= v.len(),
            limit <= 1_000_000_000_000,
            d == v@.subrange(start as int, v@.len() as int),
            all_ascii_digits(d.take(i - start)),
            total as int == digits_number(d.take(i - start)),
            total <= limit,
        decreases v.len() - i,
    {
        let c = v[i];
        let ghost t = d.take(i + 1 - start);
        assert(t.drop_last() =~= d.take(i - start));
        assert(t.last() == c);
        if !('0' <= c && c <= '9') {
            proof {
                assert(!all_ascii_digits(d)) by {
                    assert(d[i - start] == c);
                }
            }
            return None;
        }
        let dv = (c as u32 - '0' as u32) as u64;
        assert(dv as int == digit_value(c));
        assert(all_ascii_digits(t)) by {
            assert forall|k: int| 0 <= k < t.len() implies '0' <= #[trigger] t[k] <= '9' by {
                if k < t.len() - 1 {
                    assert(t[k] == d.take(i - start)[k]);
                }
            }
        }
        assert(total * 10 + dv <= 10_000_000_000_009) by (nonlinear_arith)
            requires
                total <= 1_000_000_000_000,
                dv <= 9,
        ;
        let next = total * 10 + dv;
        if next > limit {
            proof {
                if all_ascii_digits(d) {
                    lemma_digits_number_grows(d, i + 1 - start);
                }
            }
            return None;
        }
        total = next;
        i = i + 1;
    }
    assert(d.take(v.len() - start) =~= d);
    Some(total)
}

/// Parses `s` as `i32::from_str` does (`None` where it reports an error).
pub fn parse_i32(s: &str) -> (r: Option<i32>)
    ensures
        match r {
            Some(n) => parse_i32_spec(s@) == Some(n as int),
            None => parse_i32_spec(s@) is None,
        },
{
    let v = chars_of(s);
    let signed = v.len() > 0 && (v[0] == '+' || v[0] == '-');
    let neg = v.len() > 0 && v[0] == '-';
    let start: usize = if signed {
        1
    } else {
        0
    };
    let limit: u64 = if neg {
        2147483648
    } else {
        2147483647
    };
    assert(v@.subrange(start as int, v@.len() as int) =~= (if s@.len() > 0 && (s@[0] == '+' || s@[0] == '-') {
        s@.drop_first()
    } else {
        s@
    }));
    match parse_digits(&v, start, limit) {
        Some(n) => {
            if neg {
                Some((-(n as i64)) as i32)
            } else {
                Some(n as i32)
            }
        },
        None => None,
    }
}


/// The pieces of `s` between occurrences of any character of `seps` (what
/// `str::split` on a set of characters gives), empty pieces kept.
pub open spec fn split_any(s: Seq<char>, seps: Seq<char>) -> Seq<Seq<char>>
    decreases s.len(),
{
    if s.len() == 0 {
        seq![Seq::empty()]
    } else {
        let prev = split_any(s.drop_last(), seps);
        if seps.contains(s.last()) {
            prev.push(Seq::empty())
        } else {
            prev.update(prev.len() - 1, prev.last().push(s.last()))
        }
    }
}

pub(crate) proof fn lemma_split_any_nonempty(s: Seq<char>, seps: Seq<char>)
    ensures
        split_any(s, seps).len() >= 1,
    decreases s.len(),
{
    if s.len() > 0 {
        lemma_split_any_nonempty(s.drop_last(), seps);
    }
}

fn is_one_of(c: char, seps: &Vec<char>) -> (r: bool)
    ensures
        r == seps@.contains(c),
{
    let mut i: usize = 0;
    while i < seps.len()
        invariant
            i <= seps@.len(),
            forall|j: int| 0 <= j < i ==> seps@[j] != c,
        decreases seps.len() - i,
    {
        if seps[i] == c {
            assert(seps@[i as int] == c);
            return true;
        }
        i = i + 1;
    }
    false
}

/// The pieces of `s` between occurrences of any of `seps`, trimmed, the
/// empty ones left out.
pub fn split_any_trimmed(s: &str, seps: &Vec<char>) -> (r: Vec<String>)
    ensures
        r@.map_values(|t: String| t@) == trimmed_pieces(split_any(s@, seps@), split_any(s@, seps@).len()),
{
    let v = chars_of(s);
    let mut pieces: Vec<Vec<char>> = Vec::new();
    pieces.push(Vec::new());
    assert(v@.take(0) =~= Seq::<char>::empty());
    let mut i: usize = 0;
    while i < v.len()
        invariant
            i <= v@.len(),
            pieces@.len() == split_any(v@.take(i as int), seps@).len(),
            pieces@.len() >= 1,
            forall|k: int| 0 <= k < pieces@.len() ==> #[trigger] pieces@[k]@ == split_any(v@.take(i as int), seps@)[k],
        decreases v.len() - i,
    {
        let c = v[i];
        assert(v@.take(i + 1).drop_last() =~= v@.take(i as int));
        assert(v@.take(i + 1).last() == c);
        let ghost old_pieces = pieces@;
        if is_one_of(c, seps) {
            pieces.push(Vec::new());
            proof {
                assert forall|k: int| 0 <= k < pieces@.len() implies #[trigger] pieces@[k]@ == split_any(
                    v@.take(i + 1),
                    seps@,
                )[k] by {
                    if k < old_pieces.len() {
                        assert(pieces@[k] == old_pieces[k]);
                    }
                }
            }
        } else {
            let last = pieces.len() - 1;
            pieces[last].push(c);
            proof {
                assert forall|k: int| 0 <= k < pieces@.len() implies #[trigger] pieces@[k]@ == split_any(
                    v@.take(i + 1),
                    seps@,
                )[k] by {
                    if k < last {
                        assert(pieces@[k] == old_pieces[k]);
                    }
                }
            }
        }
        i = i + 1;
    }
    assert(v@.take(v@.len() as int) =~= v@);
    let ghost ps = split_any(s@, seps@);
    let mut r: Vec<String> = Vec::new();
    let mut k: usize = 0;
    while k < pieces.len()
        invariant
            k <= pieces@.len(),
            pieces@.len() == ps.len(),
            forall|j: int| 0 <= j < pieces@.len() ==> #[trigger] pieces@[j]@ == ps[j],
            r@.map_values(|t: String| t@) == trimmed_pieces(ps, k as nat),
        decreases pieces.len() - k,
    {
        let t = trim_chars(&pieces[k]);
        if t.len() > 0 {
            let ghost prev = r@;
            r.push(string_of(&t));
            assert(r@.map_values(|t: String| t@) =~= prev.map_values(|t: String| t@).push(t@));
        }
        k = k + 1;
    }
    r
}

} // verus!
