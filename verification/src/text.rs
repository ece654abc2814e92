//! Text primitives shared by the detectors, the parsers and the renderers.
//!
//! Text is modelled as `Seq<char>`: a `&str` or `String` is taken by its view,
//! and most scanning works on a `Vec<char>` copy of it. Three facts about
//! characters come from std and are named here rather than restated: Unicode
//! whitespace, Unicode alphanumerics, and Unicode lowercasing.

use vstd::prelude::*;
use vstd::string::*;

verus! {

// ---------------------------------------------------------------------------
// Names for what std computes from Unicode tables.
// ---------------------------------------------------------------------------

/// Whether a character outside ASCII has the Unicode `White_Space`
/// property: U+0085, U+00A0, U+1680, U+2000 to U+200A, U+2028, U+2029,
/// U+202F, U+205F and U+3000.
pub open spec fn non_ascii_ws(c: char) -> bool {
    c == '\u{85}' || c == '\u{a0}' || c == '\u{1680}' || ('\u{2000}' <= c && c <= '\u{200a}') || c == '\u{2028}'
        || c == '\u{2029}' || c == '\u{202f}' || c == '\u{205f}' || c == '\u{3000}'
}

/// Whether `char::is_alphanumeric` holds of a character outside ASCII.
pub uninterp spec fn non_ascii_alnum(c: char) -> bool;

/// What `str::to_lowercase` returns for a text.
pub uninterp spec fn lowercase(s: Seq<char>) -> Seq<char>;

pub open spec fn is_ascii(c: char) -> bool {
    (c as u32) < 128
}

pub open spec fn is_ascii_digit(c: char) -> bool {
    '0' <= c && c <= '9'
}

pub open spec fn is_ascii_lower(c: char) -> bool {
    'a' <= c && c <= 'z'
}

pub open spec fn is_ascii_upper(c: char) -> bool {
    'A' <= c && c <= 'Z'
}

pub open spec fn is_ascii_alnum(c: char) -> bool {
    is_ascii_digit(c) || is_ascii_lower(c) || is_ascii_upper(c)
}

pub open spec fn is_ascii_ws(c: char) -> bool {
    c == ' ' || ('\t' <= c && c <= '\r')
}

/// `char::is_whitespace`: in ASCII, tab, line feed, vertical tab, form feed,
/// carriage return and space.
pub open spec fn is_ws(c: char) -> bool {
    if is_ascii(c) {
        is_ascii_ws(c)
    } else {
        non_ascii_ws(c)
    }
}

/// `char::is_alphanumeric`: in ASCII, the digits and the Latin letters.
pub open spec fn is_alnum(c: char) -> bool {
    if is_ascii(c) {
        is_ascii_alnum(c)
    } else {
        non_ascii_alnum(c)
    }
}

/// `char::is_whitespace`: the Unicode `White_Space` property.
pub(crate) fn char_is_ws(c: char) -> (b: bool)
    ensures
        b == is_ws(c),
{
    (c == ' ' || ('\t' <= c && c <= '\r')) || c == '\u{85}' || c == '\u{a0}' || c == '\u{1680}' || ('\u{2000}' <= c
        && c <= '\u{200a}') || c == '\u{2028}' || c == '\u{2029}' || c == '\u{202f}' || c == '\u{205f}' || c
        == '\u{3000}'
}

/// `char::is_alphanumeric`: the ASCII rows (the digits and the Latin
/// letters) are stated, the rest is named.
#[verifier::external_body]
pub(crate) fn char_is_alnum(c: char) -> (b: bool)
    ensures
        is_ascii(c) ==> (b <==> is_ascii_alnum(c)),
        !is_ascii(c) ==> b == non_ascii_alnum(c),
{
    c.is_alphanumeric()
}

/// `A`-`Z` written as `a`-`z`; every other character as it is.
pub open spec fn ascii_lower(c: char) -> char {
    if is_ascii_upper(c) {
        ((c as u32) + 32) as char
    } else {
        c
    }
}

/// `str::to_lowercase`: the result is named, since the Unicode case tables do
/// not fit a contract; on an all-ASCII text it maps only `A`-`Z`, to
/// `a`-`z`, as std documents.
#[verifier::external_body]
pub(crate) fn to_lower(s: &str) -> (r: String)
    ensures
        r@ == lowercase(s@),
        (forall|k: int| 0 <= k < s@.len() ==> is_ascii(#[trigger] s@[k])) ==> r@ == s@.map_values(
            |c: char| ascii_lower(c),
        ),
{
    s.to_lowercase()
}

/// `String::push`: one character appended.
#[verifier::external_body]
pub(crate) fn push_char(s: &mut String, c: char)
    ensures
        final(s)@ == old(s)@.push(c),
{
    s.push(c)
}

// ---------------------------------------------------------------------------
// Conversions.
// ---------------------------------------------------------------------------

pub open spec fn views(v: Seq<Vec<char>>) -> Seq<Seq<char>> {
    v.map_values(|x: Vec<char>| x@)
}

pub open spec fn string_views(v: Seq<String>) -> Seq<Seq<char>> {
    v.map_values(|x: String| x@)
}

/// The characters of a text.
pub fn chars_of(s: &str) -> (v: Vec<char>)
    ensures
        v@ == s@,
{
    let n = s.unicode_len();
    let mut v: Vec<char> = Vec::new();
    let mut i: usize = 0;
    while i < n
        invariant
            n == s@.len(),
            i <= n,
            v@ == s@.subrange(0, i as int),
        decreases n - i,
    {
        v.push(s.get_char(i));
        i = i + 1;
    }
    v
}

/// A text holding the given characters.
pub fn string_of(v: &[char]) -> (s: String)
    ensures
        s@ == v@,
{
    let mut s = String::new();
    let mut i: usize = 0;
    while i < v.len()
        invariant
            i <= v@.len(),
            s@ == v@.subrange(0, i as int),
        decreases v.len() - i,
    {
        push_char(&mut s, v[i]);
        i = i + 1;
    }
    s
}

/// The characters `s[a..b]`.
pub fn slice(s: &[char], a: usize, b: usize) -> (r: Vec<char>)
    requires
        a <= b <= s@.len(),
    ensures
        r@ == s@.subrange(a as int, b as int),
{
    let mut r: Vec<char> = Vec::new();
    let mut i = a;
    while i < b
        invariant
            a <= i <= b,
            b <= s@.len(),
            r@ == s@.subrange(a as int, i as int),
        decreases b - i,
    {
        r.push(s[i]);
        i = i + 1;
    }
    r
}

pub fn eq_chars(a: &[char], b: &[char]) -> (r: bool)
    ensures
        r == (a@ == b@),
{
    if a.len() != b.len() {
        return false;
    }
    let mut i: usize = 0;
    while i < a.len()
        invariant
            a@.len() == b@.len(),
            i <= a@.len(),
            forall|k: int| 0 <= k < i ==> a@[k] == b@[k],
        decreases a.len() - i,
    {
        if a[i] != b[i] {
            return false;
        }
        i = i + 1;
    }
    assert(a@ =~= b@);
    true
}

// ---------------------------------------------------------------------------
// Occurrences.
// ---------------------------------------------------------------------------

/// `p` occurs in `s` starting at `i`.
pub open spec fn occurs_at(s: Seq<char>, p: Seq<char>, i: int) -> bool {
    0 <= i && i + p.len() <= s.len() && s.subrange(i, i + p.len()) == p
}

/// `str::contains`.
pub open spec fn contains(s: Seq<char>, p: Seq<char>) -> bool {
    exists|i: int| occurs_at(s, p, i)
}

pub open spec fn starts_with(s: Seq<char>, p: Seq<char>) -> bool {
    occurs_at(s, p, 0)
}

/// `i` is where `str::find` finds `p` in `s`: the first occurrence.
pub open spec fn is_first_occurrence(s: Seq<char>, p: Seq<char>, i: int) -> bool {
    occurs_at(s, p, i) && forall|j: int| 0 <= j < i ==> !occurs_at(s, p, j)
}

pub fn occurs_at_exec(s: &[char], p: &[char], i: usize) -> (r: bool)
    ensures
        r == occurs_at(s@, p@, i as int),
{
    if p.len() > s.len() || i > s.len() - p.len() {
        return false;
    }
    let n = s.len();
    let mut k: usize = 0;
    while k < p.len()
        invariant
            n == s@.len(),
            i + p@.len() <= s@.len(),
            k <= p@.len(),
            forall|m: int| 0 <= m < k ==> s@[i + m] == p@[m],
        decreases p.len() - k,
    {
        assert(i + k < s@.len());
        if s[i + k] != p[k] {
            assert(s@.subrange(i as int, i + p@.len())[k as int] != p@[k as int]);
            return false;
        }
        k = k + 1;
    }
    assert(s@.subrange(i as int, i + p@.len()) =~= p@);
    true
}

/// The first occurrence of `p` in `s` at or after `from`.
pub fn find_from(s: &[char], p: &[char], from: usize) -> (r: Option<usize>)
    ensures
        match r {
            Some(i) => from <= i && occurs_at(s@, p@, i as int) && forall|j: int|
                from <= j < i ==> !occurs_at(s@, p@, j),
            None => forall|j: int| from <= j ==> !occurs_at(s@, p@, j),
        },
{
    if p.len() > s.len() {
        return None;
    }
    let last = s.len() - p.len();
    if from > last {
        return None;
    }
    let mut i = from;
    while i < last
        invariant
            last + p@.len() == s@.len(),
            from <= i <= last,
            forall|j: int| from <= j < i ==> !occurs_at(s@, p@, j),
        decreases last - i,
    {
        if occurs_at_exec(s, p, i) {
            return Some(i);
        }
        i = i + 1;
    }
    if occurs_at_exec(s, p, last) {
        Some(last)
    } else {
        None
    }
}

/// `str::find`: the first occurrence of `p` in `s`.
pub fn find(s: &[char], p: &[char]) -> (r: Option<usize>)
    ensures
        match r {
            Some(i) => is_first_occurrence(s@, p@, i as int),
            None => !contains(s@, p@),
        },
{
    find_from(s, p, 0)
}


/// Whether a character occurs in a text.
pub fn contains_char(s: &[char], c: char) -> (b: bool)
    ensures
        b == s@.contains(c),
{
    let mut i: usize = 0;
    while i < s.len()
        invariant
            i <= s@.len(),
            forall|k: int| 0 <= k < i ==> s@[k] != c,
        decreases s.len() - i,
    {
        if s[i] == c {
            assert(s@[i as int] == c);
            return true;
        }
        i = i + 1;
    }
    false
}

/// `str::contains`.
pub fn contains_exec(s: &[char], p: &[char]) -> (r: bool)
    ensures
        r == contains(s@, p@),
{
    match find(s, p) {
        Some(_) => true,
        None => false,
    }
}

pub fn starts_with_exec(s: &[char], p: &[char]) -> (r: bool)
    ensures
        r == starts_with(s@, p@),
{
    occurs_at_exec(s, p, 0)
}

// ---------------------------------------------------------------------------
// Trimming.
// ---------------------------------------------------------------------------

/// `str::trim_start`.
pub open spec fn trim_start(s: Seq<char>) -> Seq<char>
    decreases s.len(),
{
    if s.len() > 0 && is_ws(s[0]) {
        trim_start(s.drop_first())
    } else {
        s
    }
}

/// `str::trim_end`.
pub open spec fn trim_end(s: Seq<char>) -> Seq<char>
    decreases s.len(),
{
    if s.len() > 0 && is_ws(s.last()) {
        trim_end(s.drop_last())
    } else {
        s
    }
}

/// `str::trim`.
pub open spec fn trim(s: Seq<char>) -> Seq<char> {
    trim_end(trim_start(s))
}

pub fn trim_start_index(s: &[char]) -> (i: usize)
    ensures
        i <= s@.len(),
        trim_start(s@) == s@.subrange(i as int, s@.len() as int),
{
    let mut i: usize = 0;
    assert(s@.subrange(0, s@.len() as int) =~= s@);
    while i < s.len() && char_is_ws(s[i])
        invariant
            i <= s@.len(),
            trim_start(s@) == trim_start(s@.subrange(i as int, s@.len() as int)),
        decreases s.len() - i,
    {
        assert(s@.subrange(i as int, s@.len() as int).drop_first() =~= s@.subrange(i + 1, s@.len() as int));
        i = i + 1;
    }
    i
}

pub fn trim_end_index(s: &[char]) -> (j: usize)
    ensures
        j <= s@.len(),
        trim_end(s@) == s@.subrange(0, j as int),
{
    let mut j: usize = s.len();
    assert(s@.subrange(0, s@.len() as int) =~= s@);
    while j > 0 && char_is_ws(s[j - 1])
        invariant
            j <= s@.len(),
            trim_end(s@) == trim_end(s@.subrange(0, j as int)),
        decreases j,
    {
        assert(s@.subrange(0, j as int).drop_last() =~= s@.subrange(0, j - 1));
        j = j - 1;
    }
    j
}

/// `str::trim`.
pub fn trim_exec(s: &[char]) -> (r: Vec<char>)
    ensures
        r@ == trim(s@),
{
    let i = trim_start_index(s);
    let t = slice(s, i, s.len());
    let j = trim_end_index(&t);
    slice(&t, 0, j)
}

pub open spec fn trim_matches_start(s: Seq<char>, c: char) -> Seq<char>
    decreases s.len(),
{
    if s.len() > 0 && s[0] == c {
        trim_matches_start(s.drop_first(), c)
    } else {
        s
    }
}

pub open spec fn trim_matches_end(s: Seq<char>, c: char) -> Seq<char>
    decreases s.len(),
{
    if s.len() > 0 && s.last() == c {
        trim_matches_end(s.drop_last(), c)
    } else {
        s
    }
}

/// `str::trim_matches` with one character.
pub open spec fn trim_matches(s: Seq<char>, c: char) -> Seq<char> {
    trim_matches_end(trim_matches_start(s, c), c)
}

pub fn trim_matches_exec(s: &[char], c: char) -> (r: Vec<char>)
    ensures
        r@ == trim_matches(s@, c),
{
    let mut i: usize = 0;
    assert(s@.subrange(0, s@.len() as int) =~= s@);
    while i < s.len() && s[i] == c
        invariant
            i <= s@.len(),
            trim_matches_start(s@, c) == trim_matches_start(s@.subrange(i as int, s@.len() as int), c),
        decreases s.len() - i,
    {
        assert(s@.subrange(i as int, s@.len() as int).drop_first() =~= s@.subrange(i + 1, s@.len() as int));
        i = i + 1;
    }
    let t = slice(s, i, s.len());
    let mut j: usize = t.len();
    assert(t@.subrange(0, t@.len() as int) =~= t@);
    while j > 0 && t[j - 1] == c
        invariant
            j <= t@.len(),
            trim_matches_end(t@, c) == trim_matches_end(t@.subrange(0, j as int), c),
        decreases j,
    {
        assert(t@.subrange(0, j as int).drop_last() =~= t@.subrange(0, j - 1));
        j = j - 1;
    }
    slice(&t, 0, j)
}

// ---------------------------------------------------------------------------
// Lines.
// ---------------------------------------------------------------------------

/// `str::split` on one character: the pieces between its occurrences.
pub open spec fn split_on(s: Seq<char>, c: char) -> Seq<Seq<char>>
    decreases s.len(),
{
    if s.len() == 0 {
        seq![Seq::<char>::empty()]
    } else {
        let prev = split_on(s.drop_last(), c);
        if s.last() == c {
            prev.push(Seq::<char>::empty())
        } else {
            prev.update(prev.len() - 1, prev.last().push(s.last()))
        }
    }
}

pub proof fn lemma_split_on_nonempty(s: Seq<char>, c: char)
    ensures
        split_on(s, c).len() >= 1,
    decreases s.len(),
{
    if s.len() > 0 {
        lemma_split_on_nonempty(s.drop_last(), c);
    }
}

/// A line's `\r` before its `\n`, which `str::lines` drops.
pub open spec fn strip_cr(l: Seq<char>) -> Seq<char> {
    if l.len() > 0 && l.last() == '\r' {
        l.drop_last()
    } else {
        l
    }
}

/// `str::lines`: the pieces between line feeds, each ended one with its `\r`
/// removed, and the last piece only when it is not empty.
pub open spec fn lines(s: Seq<char>) -> Seq<Seq<char>> {
    let p = split_on(s, '\n');
    p.drop_last().map_values(|l: Seq<char>| strip_cr(l)) + if p.last().len() > 0 {
        seq![p.last()]
    } else {
        Seq::<Seq<char>>::empty()
    }
}

pub fn strip_cr_exec(l: Vec<char>) -> (r: Vec<char>)
    ensures
        r@ == strip_cr(l@),
{
    let mut l = l;
    if l.len() > 0 && l[l.len() - 1] == '\r' {
        let ghost before = l@;
        l.pop();
        assert(l@ =~= before.drop_last());
    }
    l
}

/// `str::lines`.
pub fn lines_exec(s: &[char]) -> (out: Vec<Vec<char>>)
    ensures
        views(out@) == lines(s@),
{
    let mut out: Vec<Vec<char>> = Vec::new();
    let mut cur: Vec<char> = Vec::new();
    let ghost mut raw: Seq<Seq<char>> = Seq::empty();
    let mut i: usize = 0;
    assert(s@.subrange(0, 0) =~= Seq::<char>::empty());
    while i < s.len()
        invariant
            i <= s@.len(),
            split_on(s@.subrange(0, i as int), '\n') == raw.push(cur@),
            views(out@) == raw.map_values(|l: Seq<char>| strip_cr(l)),
        decreases s.len() - i,
    {
        let c = s[i];
        proof {
            assert(s@.subrange(0, i + 1).drop_last() =~= s@.subrange(0, i as int));
        }
        if c == '\n' {
            let ghost cur_view = cur@;
            let done = strip_cr_exec(cur);
            let ghost out_before = out@;
            let ghost done_view = done@;
            out.push(done);
            cur = Vec::new();
            proof {
                assert(views(out@) =~= views(out_before).push(done_view));
                raw = raw.push(cur_view);
                assert(views(out@) =~= raw.map_values(|l: Seq<char>| strip_cr(l)));
                assert(split_on(s@.subrange(0, i + 1), '\n') =~= raw.push(cur@));
            }
        } else {
            cur.push(c);
            proof {
                assert(split_on(s@.subrange(0, i + 1), '\n') =~= raw.push(cur@));
            }
        }
        i = i + 1;
    }
    assert(s@.subrange(0, s@.len() as int) =~= s@);
    let ghost p = split_on(s@, '\n');
    assert(p.drop_last() =~= raw);
    assert(p.last() == cur@);
    if cur.len() > 0 {
        out.push(cur);
    }
    assert(views(out@) =~= lines(s@));
    out
}


/// Append characters to a text.
pub fn append_chars(s: &mut String, v: &[char])
    ensures
        final(s)@ == old(s)@ + v@,
{
    let mut i: usize = 0;
    let ghost start = s@;
    while i < v.len()
        invariant
            i <= v@.len(),
            s@ == start + v@.subrange(0, i as int),
        decreases v.len() - i,
    {
        push_char(s, v[i]);
        i = i + 1;
        assert(s@ =~= start + v@.subrange(0, i as int));
    }
    assert(v@.subrange(0, v@.len() as int) =~= v@);
}

/// The characters of `a` followed by those of `b`.
pub fn concat(a: &[char], b: &[char]) -> (r: Vec<char>)
    ensures
        r@ == a@ + b@,
{
    let mut r = slice(a, 0, a.len());
    let mut i: usize = 0;
    assert(a@.subrange(0, a@.len() as int) =~= a@);
    while i < b.len()
        invariant
            i <= b@.len(),
            r@ == a@ + b@.subrange(0, i as int),
        decreases b.len() - i,
    {
        r.push(b[i]);
        i = i + 1;
        assert(r@ =~= a@ + b@.subrange(0, i as int));
    }
    assert(b@.subrange(0, b@.len() as int) =~= b@);
    r
}

/// The first occurrence of `p` in `s`, as `str::find` reports it.
pub open spec fn find_first(s: Seq<char>, p: Seq<char>) -> Option<int> {
    if contains(s, p) {
        Some(choose|i: int| is_first_occurrence(s, p, i))
    } else {
        None
    }
}

pub proof fn lemma_find_first(s: Seq<char>, p: Seq<char>, i: int)
    requires
        is_first_occurrence(s, p, i),
    ensures
        find_first(s, p) == Some(i),
{
    assert(contains(s, p));
    let j = choose|j: int| is_first_occurrence(s, p, j);
    assert(is_first_occurrence(s, p, j));
    if j < i {
        assert(!occurs_at(s, p, j));
    } else if i < j {
        assert(!occurs_at(s, p, i));
    }
}

/// The end of the run of non-whitespace characters starting at `j`.
pub open spec fn word_end(s: Seq<char>, j: int) -> int
    decreases s.len() - j,
{
    if 0 <= j < s.len() && !is_ws(s[j]) {
        word_end(s, j + 1)
    } else {
        j
    }
}

pub proof fn lemma_word_end(s: Seq<char>, j: int)
    requires
        0 <= j <= s.len(),
    ensures
        j <= word_end(s, j) <= s.len(),
    decreases s.len() - j,
{
    if 0 <= j < s.len() && !is_ws(s[j]) {
        lemma_word_end(s, j + 1);
    }
}

/// The first whitespace-separated word of a text that does not start with
/// whitespace.
pub open spec fn first_word(s: Seq<char>) -> Seq<char> {
    s.subrange(0, word_end(s, 0))
}

pub fn first_word_exec(s: &[char]) -> (r: Vec<char>)
    ensures
        r@ == first_word(s@),
{
    let mut j: usize = 0;
    proof { lemma_word_end(s@, 0); }
    while j < s.len() && !char_is_ws(s[j])
        invariant
            j <= s@.len(),
            word_end(s@, 0) == word_end(s@, j as int),
        decreases s.len() - j,
    {
        j = j + 1;
    }
    slice(s, 0, j)
}

/// The UTF-8 length of a character.
pub open spec fn utf8_width(c: char) -> nat {
    if (c as u32) < 0x80 {
        1
    } else if (c as u32) < 0x800 {
        2
    } else if (c as u32) < 0x10000 {
        3
    } else {
        4
    }
}

/// The UTF-8 length of a text, which `str::len` reports.
pub open spec fn utf8_len(s: Seq<char>) -> nat
    decreases s.len(),
{
    if s.len() == 0 {
        0
    } else {
        utf8_len(s.drop_last()) + utf8_width(s.last())
    }
}

/// Whether a text's UTF-8 length is at least `k`.
pub fn utf8_len_at_least(s: &[char], k: usize) -> (b: bool)
    ensures
        b == (utf8_len(s@) >= k),
{
    if k == 0 {
        return true;
    }
    let mut total: usize = 0;
    let mut i: usize = 0;
    assert(s@.subrange(0, 0) =~= Seq::<char>::empty());
    while i < s.len()
        invariant
            i <= s@.len(),
            total == utf8_len(s@.subrange(0, i as int)),
            total < k,
        decreases s.len() - i,
    {
        let c = s[i];
        let w: usize = if (c as u32) < 0x80 {
            1
        } else if (c as u32) < 0x800 {
            2
        } else if (c as u32) < 0x10000 {
            3
        } else {
            4
        };
        assert(s@.subrange(0, i + 1).drop_last() =~= s@.subrange(0, i as int));
        assert(w == utf8_width(c));
        if w >= k - total {
            proof { lemma_utf8_len_prefix(s@, i + 1); }
            return true;
        }
        total = total + w;
        i = i + 1;
    }
    assert(s@.subrange(0, s@.len() as int) =~= s@);
    false
}

pub proof fn lemma_utf8_len_prefix(s: Seq<char>, i: int)
    requires
        0 <= i <= s.len(),
    ensures
        utf8_len(s.subrange(0, i)) <= utf8_len(s),
    decreases s.len() - i,
{
    if i < s.len() {
        lemma_utf8_len_prefix(s, i + 1);
        assert(s.subrange(0, i + 1).drop_last() =~= s.subrange(0, i));
    } else {
        assert(s.subrange(0, i) =~= s);
    }
}


/// The first position of `c` in `s` at or after `i`, or `s.len()` when there
/// is none.
pub open spec fn char_pos_from(s: Seq<char>, c: char, i: int) -> int
    decreases s.len() - i,
{
    if i < 0 || i >= s.len() {
        s.len() as int
    } else if s[i] == c {
        i
    } else {
        char_pos_from(s, c, i + 1)
    }
}

/// The first position of `c` in `s`, or `s.len()`.
pub open spec fn char_pos(s: Seq<char>, c: char) -> int {
    char_pos_from(s, c, 0)
}

pub proof fn lemma_char_pos_from(s: Seq<char>, c: char, i: int)
    requires
        0 <= i <= s.len(),
    ensures
        i <= char_pos_from(s, c, i) <= s.len(),
        char_pos_from(s, c, i) < s.len() ==> s[char_pos_from(s, c, i)] == c,
        forall|k: int| i <= k < char_pos_from(s, c, i) ==> s[k] != c,
    decreases s.len() - i,
{
    if i < s.len() && s[i] != c {
        lemma_char_pos_from(s, c, i + 1);
    }
}

/// The first position of `c` in `s`, or `s.len()` when it does not occur.
pub fn char_pos_exec(s: &[char], c: char) -> (k: usize)
    ensures
        k == char_pos(s@, c),
        k <= s@.len(),
{
    let mut i: usize = 0;
    proof { lemma_char_pos_from(s@, c, 0); }
    while i < s.len() && s[i] != c
        invariant
            i <= s@.len(),
            char_pos(s@, c) == char_pos_from(s@, c, i as int),
        decreases s.len() - i,
    {
        i = i + 1;
    }
    i
}


/// `str::split` on one character.
pub fn split_exec(s: &[char], c: char) -> (out: Vec<Vec<char>>)
    ensures
        views(out@) == split_on(s@, c),
{
    let mut out: Vec<Vec<char>> = Vec::new();
    let mut cur: Vec<char> = Vec::new();
    let mut i: usize = 0;
    assert(s@.subrange(0, 0) =~= Seq::<char>::empty());
    while i < s.len()
        invariant
            i <= s@.len(),
            split_on(s@.subrange(0, i as int), c) == views(out@).push(cur@),
        decreases s.len() - i,
    {
        let x = s[i];
        proof {
            assert(s@.subrange(0, i + 1).drop_last() =~= s@.subrange(0, i as int));
        }
        if x == c {
            let ghost before = views(out@);
            let ghost cv = cur@;
            out.push(cur);
            cur = Vec::new();
            proof {
                assert(views(out@) =~= before.push(cv));
                assert(split_on(s@.subrange(0, i + 1), c) =~= views(out@).push(cur@));
            }
        } else {
            cur.push(x);
            proof {
                assert(split_on(s@.subrange(0, i + 1), c) =~= views(out@).push(cur@));
            }
        }
        i = i + 1;
    }
    assert(s@.subrange(0, s@.len() as int) =~= s@);
    let ghost before = views(out@);
    out.push(cur);
    assert(views(out@) =~= before.push(cur@));
    out
}


// ---------------------------------------------------------------------------
// Numbers.
// ---------------------------------------------------------------------------

pub open spec fn all_digits(s: Seq<char>) -> bool {
    forall|k: int| 0 <= k < s.len() ==> is_ascii_digit(#[trigger] s[k])
}

/// The decimal value of a run of ASCII digits.
pub open spec fn digits_value(s: Seq<char>) -> int
    decreases s.len(),
{
    if s.len() == 0 {
        0
    } else {
        digits_value(s.drop_last()) * 10 + (s.last() as int - '0' as int)
    }
}

/// What `FromStr` gives for an unsigned integer type whose largest value is
/// `max`: an optional `+`, then at least one ASCII digit, with no overflow.
pub open spec fn parsed_number(p: Seq<char>, max: int) -> Option<int> {
    let body = if p.len() > 0 && p[0] == '+' {
        p.drop_first()
    } else {
        p
    };
    if body.len() > 0 && all_digits(body) && digits_value(body) <= max {
        Some(digits_value(body))
    } else {
        None
    }
}

pub proof fn lemma_digits_nonneg(s: Seq<char>)
    requires
        all_digits(s),
    ensures
        digits_value(s) >= 0,
    decreases s.len(),
{
    if s.len() > 0 {
        assert(all_digits(s.drop_last())) by {
            assert forall|k: int| 0 <= k < s.drop_last().len() implies is_ascii_digit(#[trigger] s.drop_last()[k]) by {
                assert(s.drop_last()[k] == s[k]);
            }
        }
        lemma_digits_nonneg(s.drop_last());
        assert(is_ascii_digit(s[s.len() - 1]));
    }
}

pub proof fn lemma_digits_value_grows(s: Seq<char>, i: int)
    requires
        0 <= i <= s.len(),
        all_digits(s),
    ensures
        0 <= digits_value(s.subrange(0, i)) <= digits_value(s),
    decreases s.len() - i,
{
    assert(all_digits(s.subrange(0, i))) by {
        assert forall|k: int| 0 <= k < s.subrange(0, i).len() implies is_ascii_digit(#[trigger] s.subrange(0, i)[k]) by {
            assert(s.subrange(0, i)[k] == s[k]);
        }
    }
    lemma_digits_nonneg(s.subrange(0, i));
    if i < s.len() {
        lemma_digits_value_grows(s, i + 1);
        assert(s.subrange(0, i + 1).drop_last() =~= s.subrange(0, i));
        assert(is_ascii_digit(s[i]));
    } else {
        assert(s.subrange(0, i) =~= s);
    }
}

/// `FromStr` for an unsigned integer bounded by `max`.
pub fn parse_number(p: &[char], max: u64) -> (r: Option<u64>)
    requires
        max <= u32::MAX,
    ensures
        match r {
            Some(x) => parsed_number(p@, max as int) == Some(x as int),
            None => parsed_number(p@, max as int) is None,
        },
{
    let start: usize = if p.len() > 0 && p[0] == '+' { 1 } else { 0 };
    let body = slice(p, start, p.len());
    assert(body@ == (if p@.len() > 0 && p@[0] == '+' { p@.drop_first() } else { p@ }));
    if body.len() == 0 {
        return None;
    }
    let mut acc: u64 = 0;
    let mut i: usize = 0;
    assert(body@.subrange(0, 0) =~= Seq::<char>::empty());
    while i < body.len()
        invariant
            i <= body@.len(),
            max <= u32::MAX,
            body@ == (if p@.len() > 0 && p@[0] == '+' { p@.drop_first() } else { p@ }),
            body@.len() > 0,
            all_digits(body@.subrange(0, i as int)),
            acc == digits_value(body@.subrange(0, i as int)),
            acc <= max,
        decreases body.len() - i,
    {
        let c = body[i];
        assert(body@.subrange(0, i + 1).drop_last() =~= body@.subrange(0, i as int));
        if !('0' <= c && c <= '9') {
            assert(!is_ascii_digit(body@[i as int]));
            assert(!all_digits(body@));
            return None;
        }
        let d = (c as u64) - ('0' as u64);
        acc = acc * 10 + d;
        assert(all_digits(body@.subrange(0, i + 1)));
        if acc > max {
            proof {
                if all_digits(body@) {
                    lemma_digits_value_grows(body@, i + 1);
                }
            }
            return None;
        }
        i = i + 1;
    }
    assert(body@.subrange(0, body@.len() as int) =~= body@);
    Some(acc)
}


/// `str::trim_start_matches` with one character.
pub fn trim_start_matches_exec(s: &[char], c: char) -> (r: Vec<char>)
    ensures
        r@ == trim_matches_start(s@, c),
{
    let mut i: usize = 0;
    assert(s@.subrange(0, s@.len() as int) =~= s@);
    while i < s.len() && s[i] == c
        invariant
            i <= s@.len(),
            trim_matches_start(s@, c) == trim_matches_start(s@.subrange(i as int, s@.len() as int), c),
        decreases s.len() - i,
    {
        assert(s@.subrange(i as int, s@.len() as int).drop_first() =~= s@.subrange(i + 1, s@.len() as int));
        i = i + 1;
    }
    slice(s, i, s.len())
}


// ---------------------------------------------------------------------------
// Order.
// ---------------------------------------------------------------------------

/// The order of `String`'s `Ord`: lexicographic by character (UTF-8 keeps the
/// order of code points).
pub open spec fn text_lt(a: Seq<char>, b: Seq<char>) -> bool
    decreases a.len(),
{
    if a.len() == 0 {
        b.len() > 0
    } else if b.len() == 0 {
        false
    } else if a[0] != b[0] {
        a[0] < b[0]
    } else {
        text_lt(a.drop_first(), b.drop_first())
    }
}

pub proof fn lemma_text_lt_total(a: Seq<char>, b: Seq<char>)
    ensures
        text_lt(a, b) || text_lt(b, a) || a == b,
        !(text_lt(a, b) && text_lt(b, a)),
        !text_lt(a, a),
    decreases a.len(),
{
    if a.len() > 0 && b.len() > 0 {
        lemma_text_lt_total(a.drop_first(), b.drop_first());
        if a[0] == b[0] && a.drop_first() == b.drop_first() {
            assert(a =~= seq![a[0]] + a.drop_first());
            assert(b =~= seq![b[0]] + b.drop_first());
        }
        lemma_text_lt_total(a.drop_first(), a.drop_first());
    } else if a.len() == 0 && b.len() == 0 {
        assert(a =~= b);
    } else if a.len() > 0 {
        lemma_text_lt_total(a.drop_first(), a.drop_first());
    }
}

pub proof fn lemma_text_lt_trans(a: Seq<char>, b: Seq<char>, c: Seq<char>)
    requires
        text_lt(a, b),
        text_lt(b, c),
    ensures
        text_lt(a, c),
    decreases a.len(),
{
    if a.len() > 0 && b.len() > 0 && c.len() > 0 && a[0] == b[0] && b[0] == c[0] {
        lemma_text_lt_trans(a.drop_first(), b.drop_first(), c.drop_first());
    }
}

/// Compare two texts in `String`'s order.
pub fn text_less(a: &[char], b: &[char]) -> (r: bool)
    ensures
        r == text_lt(a@, b@),
{
    let mut i: usize = 0;
    assert(a@.subrange(0, a@.len() as int) =~= a@);
    assert(b@.subrange(0, b@.len() as int) =~= b@);
    while i < a.len() && i < b.len() && a[i] == b[i]
        invariant
            i <= a@.len(),
            i <= b@.len(),
            text_lt(a@, b@) == text_lt(a@.subrange(i as int, a@.len() as int), b@.subrange(i as int, b@.len() as int)),
        decreases a.len() - i,
    {
        assert(a@.subrange(i as int, a@.len() as int).drop_first() =~= a@.subrange(i + 1, a@.len() as int));
        assert(b@.subrange(i as int, b@.len() as int).drop_first() =~= b@.subrange(i + 1, b@.len() as int));
        i = i + 1;
    }
    if i == a.len() {
        i < b.len()
    } else if i == b.len() {
        false
    } else {
        a[i] < b[i]
    }
}


// ---------------------------------------------------------------------------
// Facts about splitting and trimming.
// ---------------------------------------------------------------------------

pub proof fn lemma_split_concat(a: Seq<char>, b: Seq<char>, c: char)
    requires
        a.len() > 0,
        a.last() == c,
    ensures
        split_on(a + b, c) == split_on(a, c).drop_last() + split_on(b, c),
    decreases b.len(),
{
    lemma_split_on_nonempty(a, c);
    if b.len() == 0 {
        assert(a + b =~= a);
        assert(a.drop_last() + seq![c] =~= a);
        assert(split_on(a, c) =~= split_on(a.drop_last(), c).push(Seq::<char>::empty()));
        assert(split_on(a, c).drop_last() + split_on(b, c) =~= split_on(a, c));
    } else {
        lemma_split_concat(a, b.drop_last(), c);
        lemma_split_on_nonempty(b.drop_last(), c);
        assert((a + b).drop_last() =~= a + b.drop_last());
        assert((a + b).last() == b.last());
        let pa = split_on(a, c).drop_last();
        let pb = split_on(b.drop_last(), c);
        if b.last() == c {
            assert(split_on(a + b, c) =~= (pa + pb).push(Seq::<char>::empty()));
            assert((pa + pb).push(Seq::<char>::empty()) =~= pa + pb.push(Seq::<char>::empty()));
        } else {
            let prev = pa + pb;
            assert(prev.last() == pb.last());
            assert(prev.update(prev.len() - 1, prev.last().push(b.last())) =~= pa + pb.update(pb.len() - 1, pb.last().push(b.last())));
        }
    }
}

pub proof fn lemma_split_no_sep(s: Seq<char>, c: char)
    requires
        !s.contains(c),
    ensures
        split_on(s, c) == seq![s],
    decreases s.len(),
{
    if s.len() == 0 {
        assert(s =~= Seq::<char>::empty());
        assert(split_on(s, c) =~= seq![s]);
    } else {
        assert(!s.drop_last().contains(c)) by {
            if s.drop_last().contains(c) {
                let k = choose|k: int| 0 <= k < s.drop_last().len() && s.drop_last()[k] == c;
                assert(s[k] == c);
            }
        }
        lemma_split_no_sep(s.drop_last(), c);
        assert(s.last() != c) by {
            assert(s[s.len() - 1] == s.last());
        }
        assert(s.drop_last().push(s.last()) =~= s);
    }
}

pub proof fn lemma_lines_concat(a: Seq<char>, b: Seq<char>)
    requires
        a.len() > 0,
        a.last() == '\n',
    ensures
        lines(a + b) == lines(a) + lines(b),
{
    lemma_split_concat(a, b, '\n');
    lemma_split_on_nonempty(a, '\n');
    lemma_split_on_nonempty(b, '\n');
    let pa = split_on(a, '\n');
    let pb = split_on(b, '\n');
    assert(a.drop_last() + seq!['\n'] =~= a);
    assert(pa =~= split_on(a.drop_last(), '\n').push(Seq::<char>::empty()));
    assert(pa.last().len() == 0);
    let p = pa.drop_last() + pb;
    assert(p.drop_last() =~= pa.drop_last() + pb.drop_last());
    assert(p.last() == pb.last());
    assert((pa.drop_last() + pb.drop_last()).map_values(|l: Seq<char>| strip_cr(l)) =~= pa.drop_last().map_values(|l: Seq<char>| strip_cr(l)) + pb.drop_last().map_values(|l: Seq<char>| strip_cr(l)));
    assert(lines(a) =~= pa.drop_last().map_values(|l: Seq<char>| strip_cr(l)));
    assert(lines(a + b) =~= lines(a) + lines(b));
}

pub proof fn lemma_lines_one(s: Seq<char>)
    requires
        !s.contains('\n'),
    ensures
        lines(s.push('\n')) == seq![strip_cr(s)],
{
    lemma_split_no_sep(s, '\n');
    assert(s.push('\n').drop_last() =~= s);
    let p = split_on(s.push('\n'), '\n');
    assert(p =~= seq![s, Seq::<char>::empty()]);
    assert(p.drop_last() =~= seq![s]);
    assert(lines(s.push('\n')) =~= seq![strip_cr(s)]);
}

pub proof fn lemma_lines_empty()
    ensures
        lines(Seq::<char>::empty()) == Seq::<Seq<char>>::empty(),
{
    assert(split_on(Seq::<char>::empty(), '\n') =~= seq![Seq::<char>::empty()]);
    assert(lines(Seq::<char>::empty()) =~= Seq::<Seq<char>>::empty());
}

pub proof fn lemma_trim_start_len(s: Seq<char>)
    ensures
        trim_start(s).len() <= s.len(),
        trim_start(s) == s.subrange(s.len() - trim_start(s).len(), s.len() as int),
    decreases s.len(),
{
    if s.len() > 0 && is_ws(s[0]) {
        lemma_trim_start_len(s.drop_first());
        assert(s.drop_first().subrange(s.drop_first().len() - trim_start(s).len(), s.drop_first().len() as int) =~= s.subrange(s.len() - trim_start(s).len(), s.len() as int));
    } else {
        assert(s.subrange(0, s.len() as int) =~= s);
    }
}

pub proof fn lemma_trim_end_len(s: Seq<char>)
    ensures
        trim_end(s).len() <= s.len(),
        trim_end(s) == s.subrange(0, trim_end(s).len() as int),
    decreases s.len(),
{
    if s.len() > 0 && is_ws(s.last()) {
        lemma_trim_end_len(s.drop_last());
        assert(s.drop_last().subrange(0, trim_end(s).len() as int) =~= s.subrange(0, trim_end(s).len() as int));
    } else {
        assert(s.subrange(0, s.len() as int) =~= s);
    }
}

/// A text equal to its own trim starts and ends with a character that is
/// not whitespace.
pub proof fn lemma_trimmed_ends(s: Seq<char>)
    requires
        trim(s) == s,
        s.len() > 0,
    ensures
        !is_ws(s[0]),
        !is_ws(s.last()),
{
    lemma_trim_start_len(s);
    lemma_trim_end_len(trim_start(s));
    if is_ws(s[0]) {
        lemma_trim_start_len(s.drop_first());
        assert(trim_start(s).len() < s.len());
    }
    if is_ws(s.last()) {
        assert(trim_start(s) == s);
        lemma_trim_end_len(s.drop_last());
        assert(trim_end(s).len() < s.len());
    }
}

/// Trimming leaves a text alone when its ends are not whitespace.
pub proof fn lemma_trim_noop(s: Seq<char>)
    requires
        s.len() > 0 ==> !is_ws(s[0]) && !is_ws(s.last()),
    ensures
        trim(s) == s,
{
}

/// Leading whitespace goes and the rest is kept when the rest is trimmed.
pub proof fn lemma_trim_after_ws(w: Seq<char>, s: Seq<char>)
    requires
        forall|k: int| 0 <= k < w.len() ==> is_ws(#[trigger] w[k]),
        s.len() > 0 ==> !is_ws(s[0]) && !is_ws(s.last()),
    ensures
        trim(w + s) == s,
    decreases w.len(),
{
    if w.len() == 0 {
        assert(w + s =~= s);
    } else {
        assert((w + s)[0] == w[0]);
        assert((w + s).drop_first() =~= w.drop_first() + s);
        lemma_trim_after_ws(w.drop_first(), s);
    }
}


pub proof fn lemma_char_pos_at(s: Seq<char>, c: char, p: int)
    requires
        0 <= p <= s.len(),
        p < s.len() ==> s[p] == c,
        forall|k: int| 0 <= k < p ==> s[k] != c,
    ensures
        char_pos(s, c) == p,
{
    lemma_char_pos_from(s, c, 0);
    let q = char_pos(s, c);
    if q < p {
        assert(s[q] == c);
    }
    if p < q {
        assert(s[p] != c);
    }
}


/// `[..].join(sep)`.
pub open spec fn joined(parts: Seq<Seq<char>>, sep: Seq<char>) -> Seq<char>
    decreases parts.len(),
{
    if parts.len() == 0 {
        Seq::empty()
    } else if parts.len() == 1 {
        parts[0]
    } else {
        joined(parts.drop_last(), sep) + sep + parts.last()
    }
}

/// Join texts with a separator.
pub fn join_texts(parts: &Vec<String>, sep: &str) -> (r: String)
    ensures
        r@ == joined(string_views(parts@), sep@),
{
    let mut s = String::new();
    let mut i: usize = 0;
    assert(string_views(parts@).subrange(0, 0) =~= Seq::<Seq<char>>::empty());
    while i < parts.len()
        invariant
            i <= parts@.len(),
            s@ == joined(string_views(parts@).subrange(0, i as int), sep@),
        decreases parts.len() - i,
    {
        let ghost sub = string_views(parts@).subrange(0, i + 1);
        assert(sub.drop_last() =~= string_views(parts@).subrange(0, i as int));
        assert(sub.last() == parts@[i as int]@);
        if i > 0 {
            s.append(sep);
        } else {
            assert(s@ =~= Seq::<char>::empty());
        }
        s.append(parts[i].as_str());
        assert(s@ =~= joined(sub, sep@));
        i = i + 1;
    }
    assert(string_views(parts@).subrange(0, parts@.len() as int) =~= string_views(parts@));
    s
}


pub open spec fn strictly_sorted(s: Seq<Seq<char>>) -> bool {
    forall|i: int, j: int| 0 <= i < j < s.len() ==> text_lt(#[trigger] s[i], #[trigger] s[j])
}

/// Insert a text into a strictly sorted list unless it is there.
pub fn insert_sorted(v: &mut Vec<Vec<char>>, x: Vec<char>)
    requires
        strictly_sorted(views(old(v)@)),
    ensures
        strictly_sorted(views(final(v)@)),
        views(final(v)@).to_set() == views(old(v)@).to_set().insert(x@),
{
    let ghost ob = views(v@);
    let mut p: usize = 0;
    while p < v.len() && text_less(&v[p], &x)
        invariant
            p <= v@.len(),
            ob == views(v@),
            forall|k: int| 0 <= k < p ==> text_lt(#[trigger] ob[k], x@),
        decreases v.len() - p,
    {
        p = p + 1;
    }
    if p < v.len() && eq_chars(&v[p], &x) {
        assert(ob[p as int] == x@);
        assert(ob.to_set() =~= ob.to_set().insert(x@));
        return;
    }
    proof {
        if p < ob.len() {
            lemma_text_lt_total(ob[p as int], x@);
            assert(text_lt(x@, ob[p as int]));
            assert forall|k: int| p <= k < ob.len() implies text_lt(x@, #[trigger] ob[k]) by {
                if k > p {
                    lemma_text_lt_trans(x@, ob[p as int], ob[k]);
                }
            }
        }
    }
    let ghost xv = x@;
    v.insert(p, x);
    proof {
        let na = views(v@);
        assert(na =~= ob.insert(p as int, xv));
        assert forall|i: int, j: int| 0 <= i < j < na.len() implies text_lt(#[trigger] na[i], #[trigger] na[j]) by {
            if j < p {
                assert(na[i] == ob[i] && na[j] == ob[j]);
            } else if j == p {
                assert(na[i] == ob[i]);
            } else if i < p {
                assert(na[i] == ob[i] && na[j] == ob[j - 1]);
                if i < j - 1 {
                    assert(text_lt(ob[i], ob[j - 1]));
                } else {
                    assert(text_lt(ob[i], xv));
                    lemma_text_lt_trans(ob[i], xv, ob[j - 1]);
                }
            } else if i == p {
                assert(na[j] == ob[j - 1]);
            } else {
                assert(na[i] == ob[i - 1] && na[j] == ob[j - 1]);
            }
        }
        assert(na.to_set() =~= ob.to_set().insert(xv)) by {
            assert forall|y: Seq<char>| na.to_set().contains(y) <==> ob.to_set().insert(xv).contains(y) by {
                if na.contains(y) {
                    let k = choose|k: int| 0 <= k < na.len() && na[k] == y;
                    if k < p {
                        assert(ob[k] == y);
                    } else if k > p {
                        assert(ob[k - 1] == y);
                    }
                }
                if ob.contains(y) {
                    let k = choose|k: int| 0 <= k < ob.len() && ob[k] == y;
                    if k < p {
                        assert(na[k] == y);
                    } else {
                        assert(na[k + 1] == y);
                    }
                }
                if y == xv {
                    assert(na[p as int] == xv);
                }
            }
        }
    }
}



/// The end of the run of whitespace starting at `j`.
pub open spec fn ws_end(s: Seq<char>, j: int) -> int
    decreases s.len() - j,
{
    if 0 <= j < s.len() && is_ws(s[j]) {
        ws_end(s, j + 1)
    } else {
        j
    }
}

pub proof fn lemma_ws_end(s: Seq<char>, j: int)
    requires
        0 <= j <= s.len(),
    ensures
        j <= ws_end(s, j) <= s.len(),
        ws_end(s, j) < s.len() ==> !is_ws(s[ws_end(s, j)]),
    decreases s.len() - j,
{
    if 0 <= j < s.len() && is_ws(s[j]) {
        lemma_ws_end(s, j + 1);
    }
}

fn ws_end_exec(s: &[char], j: usize) -> (e: usize)
    requires
        j <= s@.len(),
    ensures
        e == ws_end(s@, j as int),
{
    let mut i = j;
    proof { lemma_ws_end(s@, j as int); }
    while i < s.len() && char_is_ws(s[i])
        invariant
            j <= i <= s@.len(),
            ws_end(s@, j as int) == ws_end(s@, i as int),
        decreases s.len() - i,
    {
        i = i + 1;
    }
    i
}

fn word_end_exec(s: &[char], j: usize) -> (e: usize)
    requires
        j <= s@.len(),
    ensures
        e == word_end(s@, j as int),
        j <= e <= s@.len(),
{
    let mut i = j;
    proof { lemma_word_end(s@, j as int); }
    while i < s.len() && !char_is_ws(s[i])
        invariant
            j <= i <= s@.len(),
            word_end(s@, j as int) == word_end(s@, i as int),
        decreases s.len() - i,
    {
        i = i + 1;
    }
    i
}

/// The second whitespace-separated field of a text, as
/// `split_whitespace().nth(1)` gives it.
pub open spec fn second_field(s: Seq<char>) -> Option<Seq<char>> {
    let a = ws_end(s, 0);
    let e = word_end(s, a);
    let b = ws_end(s, e);
    if a >= s.len() || b >= s.len() {
        None
    } else {
        Some(s.subrange(b, word_end(s, b)))
    }
}

pub fn second_field_exec(s: &[char]) -> (r: Option<Vec<char>>)
    ensures
        match second_field(s@) {
            Some(f) => r is Some && r->0@ == f,
            None => r is None,
        },
{
    let a = ws_end_exec(s, 0);
    if a >= s.len() {
        return None;
    }
    let e = word_end_exec(s, a);
    let b = ws_end_exec(s, e);
    if b >= s.len() {
        return None;
    }
    let f = word_end_exec(s, b);
    Some(slice(s, b, f))
}

/// Sort texts in `String` order.
pub fn sort_texts(v: Vec<Vec<char>>) -> (out: Vec<Vec<char>>)
    ensures
        forall|i: int, j: int| 0 <= i < j < out@.len() ==> !text_lt(#[trigger] views(out@)[j], #[trigger] views(out@)[i]),
        views(out@).to_multiset() == views(v@).to_multiset(),
{
    let mut v = v;
    let mut out: Vec<Vec<char>> = Vec::new();
    let ghost all = views(v@);
    proof {
        broadcast use vstd::seq_lib::group_to_multiset_ensures;
        assert(views(out@) =~= Seq::<Seq<char>>::empty());
    }
    while v.len() > 0
        invariant
            forall|i: int, j: int| 0 <= i < j < out@.len() ==> !text_lt(#[trigger] views(out@)[j], #[trigger] views(out@)[i]),
            views(out@).to_multiset().add(views(v@).to_multiset()) == all.to_multiset(),
        decreases v.len(),
    {
        let ghost vb = views(v@);
        let x = v.pop().unwrap();
        proof {
            assert(vb =~= views(v@).push(x@));
            vstd::seq_lib::to_multiset_build(views(v@), x@);
        }
        let mut p: usize = 0;
        while p < out.len() && !text_less(&x, &out[p])
            invariant
                p <= out@.len(),
                forall|k: int| 0 <= k < p ==> !text_lt(x@, (#[trigger] views(out@)[k])),
            decreases out.len() - p,
        {
            p = p + 1;
        }
        let ghost ob = views(out@);
        let ghost xv = x@;
        proof {
            if p < ob.len() {
                assert(text_lt(xv, ob[p as int]));
                assert forall|k: int| p <= k < ob.len() implies text_lt(xv, #[trigger] ob[k]) by {
                    if k > p {
                        assert(!text_lt(ob[k], ob[p as int]));
                        lemma_text_lt_total(ob[k], ob[p as int]);
                        if ob[k] != ob[p as int] {
                            lemma_text_lt_trans(xv, ob[p as int], ob[k]);
                        }
                    }
                }
            }
        }
        out.insert(p, x);
        proof {
            let na = views(out@);
            assert(na =~= ob.insert(p as int, xv));
            vstd::seq_lib::to_multiset_insert(ob, p as int, xv);
            assert forall|i: int, j: int| 0 <= i < j < out@.len() implies !text_lt(#[trigger] views(out@)[j], #[trigger] views(out@)[i]) by {
                if j < p {
                    assert(na[i] == ob[i] && na[j] == ob[j]);
                } else if j == p {
                    assert(na[i] == ob[i]);
                    lemma_text_lt_total(xv, ob[i]);
                } else if i < p {
                    assert(na[i] == ob[i] && na[j] == ob[j - 1]);
                    if i < j - 1 {
                        assert(!text_lt(ob[j - 1], ob[i]));
                    }
                } else if i == p {
                    assert(na[j] == ob[j - 1]);
                    lemma_text_lt_total(ob[j - 1], xv);
                } else {
                    assert(na[i] == ob[i - 1] && na[j] == ob[j - 1]);
                }
            }
            assert(views(out@).to_multiset().add(views(v@).to_multiset()) =~= all.to_multiset());
        }
    }
    proof {
        assert(views(v@) =~= Seq::<Seq<char>>::empty());
        broadcast use vstd::seq_lib::group_to_multiset_ensures;
        assert(views(v@).to_multiset() =~= vstd::multiset::Multiset::<Seq<char>>::empty());
        assert(views(out@).to_multiset() =~= all.to_multiset());
    }
    out
}


/// In `String` order, each text no later than the next.
pub open spec fn sorted_texts(s: Seq<Seq<char>>) -> bool {
    forall|i: int, j: int| 0 <= i < j < s.len() ==> !text_lt(#[trigger] s[j], #[trigger] s[i])
}

/// Two sorted lists of the same texts are the same list.
pub proof fn lemma_sorted_unique(a: Seq<Seq<char>>, b: Seq<Seq<char>>)
    requires
        sorted_texts(a),
        sorted_texts(b),
        a.to_multiset() == b.to_multiset(),
    ensures
        a == b,
    decreases a.len(),
{
    broadcast use vstd::seq_lib::group_to_multiset_ensures;
    assert(a.len() == a.to_multiset().len());
    assert(b.len() == b.to_multiset().len());
    if a.len() == 0 {
        assert(a =~= b);
    } else {
        assert(a.to_multiset().contains(b[0]));
        assert(b.to_multiset().contains(a[0]));
        let ia = choose|k: int| 0 <= k < a.len() && a[k] == b[0];
        let ib = choose|k: int| 0 <= k < b.len() && b[k] == a[0];
        if ia > 0 {
            assert(!text_lt(a[ia], a[0]));
        }
        if ib > 0 {
            assert(!text_lt(b[ib], b[0]));
        }
        lemma_text_lt_total(a[0], b[0]);
        assert(a[0] == b[0]);
        vstd::seq_lib::to_multiset_remove(a, 0);
        vstd::seq_lib::to_multiset_remove(b, 0);
        assert(a.remove(0) =~= a.drop_first());
        assert(b.remove(0) =~= b.drop_first());
        assert(sorted_texts(a.drop_first())) by {
            assert forall|i: int, j: int| 0 <= i < j < a.drop_first().len() implies !text_lt(#[trigger] a.drop_first()[j], #[trigger] a.drop_first()[i]) by {
                assert(a.drop_first()[j] == a[j + 1] && a.drop_first()[i] == a[i + 1]);
            }
        }
        assert(sorted_texts(b.drop_first())) by {
            assert forall|i: int, j: int| 0 <= i < j < b.drop_first().len() implies !text_lt(#[trigger] b.drop_first()[j], #[trigger] b.drop_first()[i]) by {
                assert(b.drop_first()[j] == b[j + 1] && b.drop_first()[i] == b[i + 1]);
            }
        }
        lemma_sorted_unique(a.drop_first(), b.drop_first());
        assert(a =~= seq![a[0]] + a.drop_first());
        assert(b =~= seq![b[0]] + b.drop_first());
    }
}


/// `Path::join` on this platform: an absolute path replaces the base;
/// otherwise one `/` joins the two, none when the base is empty or already
/// ends in one.
pub open spec fn path_join(a: Seq<char>, b: Seq<char>) -> Seq<char> {
    if b.len() > 0 && b[0] == '/' {
        b
    } else if a.len() == 0 || a.last() == '/' {
        a + b
    } else {
        a + "/"@ + b
    }
}

pub fn join_path(a: &str, b: &str) -> (r: String)
    ensures
        r@ == path_join(a@, b@),
{
    let av = chars_of(a);
    let bv = chars_of(b);
    if bv.len() > 0 && bv[0] == '/' {
        return String::from_str(b);
    }
    let mut r = String::from_str(a);
    if av.len() > 0 && av[av.len() - 1] != '/' {
        r.append("/");
    }
    r.append(b);
    r
}

} // verus!
