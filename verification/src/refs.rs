//! Register and issue references: parsing one as written, resolving it
//! against a tree, emitting where it points, and sweeping documents for the
//! references their published site cannot render.
//!
//! A bare number at the plan root names a milestone, a numbered entry under
//! `call/` names a decision, and an issue number names work in a repository.
//! A register reference that points at nothing is a dead pointer and gates; an
//! issue number written outside a link is legibility debt and advises. The
//! tree is read by the program into plain facts (the rooms and their entries,
//! the origin remote, the recipe texts); everything decided from them is here.

use vstd::prelude::*;
use vstd::string::*;

use crate::memory::{decimal_text, padded};
use crate::text::string_views;
use crate::text::{
    char_pos, char_pos_exec, chars_of, eq_chars, is_ascii_digit, is_alnum, is_ws, char_is_alnum,
    char_is_ws, slice, string_of, trim_matches_start, trim_start, find_first, starts_with, split_on, joined,
    lines, trim, contains, occurs_at,
};

verus! {

/// The two kinds of reference.
#[derive(Debug, Clone, Copy, PartialEq, Eq, Structural)]
pub enum RefKind {
    Register,
    Issue,
}

/// What resolving a reference established.
#[derive(Debug, Clone, Copy, PartialEq, Eq, Structural)]
pub enum Resolution {
    Resolved,
    /// The room was searched and holds no such entry, or the reference names
    /// no repository this tree can look in.
    UnresolvedHere,
    Malformed,
}

/// The form a resolution prints in.
#[derive(Debug, Clone, Copy, PartialEq, Eq, Structural)]
pub enum Emission {
    Path,
    MarkdownLink,
    FullUrl,
}

/// A dead pointer gates; legibility debt advises.
#[derive(Debug, Clone, Copy, PartialEq, Eq, Structural)]
pub enum Weight {
    DeadPointer,
    Unrendered,
}

/// One reference as written.
#[derive(Debug, Clone, PartialEq, Eq)]
pub struct Reference {
    pub kind: RefKind,
    /// `plan` or `call` for a register reference, empty for an issue.
    pub room: String,
    /// The repository an issue names as written (`owner/repo` or a component
    /// name); empty for a register reference and for a bare `#N`.
    pub repo: String,
    pub number: String,
    pub anchor: Option<String>,
}

pub struct RefView {
    pub kind: RefKind,
    pub room: Seq<char>,
    pub repo: Seq<char>,
    pub number: Seq<char>,
    pub anchor: Option<Seq<char>>,
}

impl View for Reference {
    type V = RefView;

    open spec fn view(&self) -> RefView {
        RefView {
            kind: self.kind,
            room: self.room@,
            repo: self.repo@,
            number: self.number@,
            anchor: match &self.anchor {
                Some(a) => Some(a@),
                None => None,
            },
        }
    }
}

/// The rooms whose numbered entries a reference can name.
pub open spec fn is_room(s: Seq<char>) -> bool {
    s == "plan"@ || s == "call"@
}

pub open spec fn all_ascii_digits(s: Seq<char>) -> bool {
    forall|k: int| 0 <= k < s.len() ==> is_ascii_digit(#[trigger] s[k])
}

/// The last position of `c` in `s`, or `-1`.
pub open spec fn char_rpos(s: Seq<char>, c: char) -> int
    decreases s.len(),
{
    if s.len() == 0 {
        -1
    } else if s.last() == c {
        s.len() - 1
    } else {
        char_rpos(s.drop_last(), c)
    }
}

pub proof fn lemma_char_rpos(s: Seq<char>, c: char)
    ensures
        -1 <= char_rpos(s, c) < s.len(),
        char_rpos(s, c) >= 0 ==> s[char_rpos(s, c)] == c,
        forall|k: int| char_rpos(s, c) < k < s.len() ==> s[k] != c,
    decreases s.len(),
{
    if s.len() > 0 && s.last() != c {
        lemma_char_rpos(s.drop_last(), c);
        assert forall|k: int| char_rpos(s, c) < k < s.len() implies s[k] != c by {
            if k < s.len() - 1 {
                assert(s[k] == s.drop_last()[k]);
            }
        }
    }
}

pub fn char_rpos_exec(s: &[char], c: char) -> (r: Option<usize>)
    ensures
        match r {
            Some(k) => k == char_rpos(s@, c),
            None => char_rpos(s@, c) == -1,
        },
{
    let mut i = s.len();
    assert(s@.subrange(0, i as int) =~= s@);
    while i > 0
        invariant
            i <= s@.len(),
            char_rpos(s@, c) == char_rpos(s@.subrange(0, i as int), c),
        decreases i,
    {
        let ghost sub = s@.subrange(0, i as int);
        assert(sub.drop_last() =~= s@.subrange(0, i - 1));
        if s[i - 1] == c {
            return Some(i - 1);
        }
        i = i - 1;
    }
    None
}

pub open spec fn count_char(s: Seq<char>, c: char) -> nat
    decreases s.len(),
{
    if s.len() == 0 {
        0
    } else {
        count_char(s.drop_last(), c) + if s.last() == c { 1nat } else { 0nat }
    }
}

fn count_char_exec(s: &[char], c: char) -> (n: usize)
    ensures
        n == count_char(s@, c),
{
    let mut n: usize = 0;
    let mut i: usize = 0;
    assert(s@.subrange(0, 0) =~= Seq::<char>::empty());
    while i < s.len()
        invariant
            i <= s@.len(),
            n == count_char(s@.subrange(0, i as int), c),
            n <= i,
        decreases s.len() - i,
    {
        assert(s@.subrange(0, i + 1).drop_last() =~= s@.subrange(0, i as int));
        if s[i] == c {
            n = n + 1;
        }
        i = i + 1;
    }
    assert(s@.subrange(0, s@.len() as int) =~= s@);
    n
}

fn all_ascii_digits_exec(s: &[char]) -> (b: bool)
    ensures
        b == all_ascii_digits(s@),
{
    let mut i: usize = 0;
    while i < s.len()
        invariant
            i <= s@.len(),
            forall|k: int| 0 <= k < i ==> is_ascii_digit(#[trigger] s@[k]),
        decreases s.len() - i,
    {
        if !('0' <= s[i] && s[i] <= '9') {
            assert(!is_ascii_digit(s@[i as int]));
            return false;
        }
        i = i + 1;
    }
    true
}

fn any_ws(s: &[char]) -> (b: bool)
    ensures
        b == exists|k: int| 0 <= k < s@.len() && is_ws(#[trigger] s@[k]),
{
    let mut i: usize = 0;
    while i < s.len()
        invariant
            i <= s@.len(),
            forall|k: int| 0 <= k < i ==> !is_ws(#[trigger] s@[k]),
        decreases s.len() - i,
    {
        if char_is_ws(s[i]) {
            assert(is_ws(s@[i as int]));
            return true;
        }
        i = i + 1;
    }
    false
}

/// A reference as written: `plan/NNNN` or `call/NNNN` with an optional
/// `#anchor`, or an issue `owner/repo#N`, `component#N` or bare `#N`.
pub open spec fn reference_of(text: Seq<char>) -> Option<RefView> {
    let t = crate::text::trim(text);
    let k = char_pos(t, '/');
    let room = t.subrange(0, k);
    if k < t.len() && is_room(room) {
        let rest = t.subrange(k + 1, t.len() as int);
        let h = char_pos(rest, '#');
        let number = rest.subrange(0, h);
        let anchor = if h < rest.len() { Some(rest.subrange(h + 1, rest.len() as int)) } else { None };
        if number.len() == 4 && all_ascii_digits(number) {
            Some(RefView { kind: RefKind::Register, room, repo: Seq::empty(), number, anchor })
        } else {
            None
        }
    } else {
        let h = char_rpos(t, '#');
        if h < 0 {
            None
        } else {
            let repo = t.subrange(0, h);
            let n = t.subrange(h + 1, t.len() as int);
            if n.len() == 0 || n.len() > 6 || !all_ascii_digits(n) {
                None
            } else if (exists|j: int| 0 <= j < repo.len() && is_ws(#[trigger] repo[j])) || count_char(repo, '/') > 1 {
                None
            } else if repo.len() > 0 && !is_alnum(repo[0]) {
                None
            } else {
                Some(RefView { kind: RefKind::Issue, room: Seq::empty(), repo, number: n, anchor: None })
            }
        }
    }
}

pub open spec fn opt_ref_view(r: Option<Reference>) -> Option<RefView> {
    match r {
        Some(x) => Some(x@),
        None => None,
    }
}

fn is_room_exec(s: &[char]) -> (b: bool)
    ensures
        b == is_room(s@),
{
    eq_chars(s, &chars_of("plan")) || eq_chars(s, &chars_of("call"))
}

/// Parse a reference as written.
pub fn parse_reference(text: &str) -> (r: Option<Reference>)
    ensures
        opt_ref_view(r) == reference_of(text@),
{
    let t = crate::text::trim_exec(&chars_of(text));
    let k = char_pos_exec(&t, '/');
    let room = slice(&t, 0, k);
    if k < t.len() && is_room_exec(&room) {
        let rest = slice(&t, k + 1, t.len());
        let h = char_pos_exec(&rest, '#');
        let number = slice(&rest, 0, h);
        let anchor = if h < rest.len() { Some(string_of(&slice(&rest, h + 1, rest.len()))) } else { None };
        if number.len() == 4 && all_ascii_digits_exec(&number) {
            return Some(Reference {
                kind: RefKind::Register,
                room: string_of(&room),
                repo: String::new(),
                number: string_of(&number),
                anchor,
            });
        }
        return None;
    }
    let h = match char_rpos_exec(&t, '#') {
        Some(h) => h,
        None => return None,
    };
    proof { lemma_char_rpos(t@, '#'); }
    let repo = slice(&t, 0, h);
    let n = slice(&t, h + 1, t.len());
    if n.len() == 0 || n.len() > 6 || !all_ascii_digits_exec(&n) {
        return None;
    }
    if any_ws(&repo) || count_char_exec(&repo, '/') > 1 {
        return None;
    }
    if repo.len() > 0 && !char_is_alnum(repo[0]) {
        return None;
    }
    Some(Reference { kind: RefKind::Issue, room: String::new(), repo: string_of(&repo), number: string_of(&n), anchor: None })
}

// ---------------------------------------------------------------------------
// Scanning a line.
// ---------------------------------------------------------------------------

/// The end of the run of ASCII digits starting at `j`.
pub open spec fn ascii_digits_end(s: Seq<char>, j: int) -> int
    decreases s.len() - j,
{
    if 0 <= j < s.len() && is_ascii_digit(s[j]) {
        ascii_digits_end(s, j + 1)
    } else {
        j
    }
}

pub proof fn lemma_ascii_digits_end(s: Seq<char>, j: int)
    requires
        0 <= j <= s.len(),
    ensures
        j <= ascii_digits_end(s, j) <= s.len(),
        forall|k: int| j <= k < ascii_digits_end(s, j) ==> is_ascii_digit(#[trigger] s[k]),
        ascii_digits_end(s, j) < s.len() ==> !is_ascii_digit(s[ascii_digits_end(s, j)]),
    decreases s.len() - j,
{
    if j < s.len() && is_ascii_digit(s[j]) {
        lemma_ascii_digits_end(s, j + 1);
    }
}

fn ascii_digits_end_exec(s: &[char], j: usize) -> (e: usize)
    requires
        j <= s@.len(),
    ensures
        e == ascii_digits_end(s@, j as int),
        j <= e <= s@.len(),
{
    let mut i = j;
    proof { lemma_ascii_digits_end(s@, j as int); }
    while i < s.len() && '0' <= s[i] && s[i] <= '9'
        invariant
            j <= i <= s@.len(),
            ascii_digits_end(s@, j as int) == ascii_digits_end(s@, i as int),
        decreases s.len() - i,
    {
        i = i + 1;
    }
    i
}

/// An anchor character: alphanumeric, `-` or `_`.
pub open spec fn anchor_char(c: char) -> bool {
    is_alnum(c) || c == '-' || c == '_'
}

pub open spec fn anchor_end(s: Seq<char>, j: int) -> int
    decreases s.len() - j,
{
    if 0 <= j < s.len() && anchor_char(s[j]) {
        anchor_end(s, j + 1)
    } else {
        j
    }
}

pub proof fn lemma_anchor_end(s: Seq<char>, j: int)
    requires
        0 <= j <= s.len(),
    ensures
        j <= anchor_end(s, j) <= s.len(),
    decreases s.len() - j,
{
    if j < s.len() && anchor_char(s[j]) {
        lemma_anchor_end(s, j + 1);
    }
}

fn anchor_end_exec(s: &[char], j: usize) -> (e: usize)
    requires
        j <= s@.len(),
    ensures
        e == anchor_end(s@, j as int),
        j <= e <= s@.len(),
{
    let mut i = j;
    proof { lemma_anchor_end(s@, j as int); }
    while i < s.len() && (char_is_alnum(s[i]) || s[i] == '-' || s[i] == '_')
        invariant
            j <= i <= s@.len(),
            anchor_end(s@, j as int) == anchor_end(s@, i as int),
        decreases s.len() - i,
    {
        i = i + 1;
    }
    i
}

/// The last `k` with `s[k] == a` and `s[k + 1] == b`, or `-1`.
pub open spec fn last_pair(s: Seq<char>, a: char, b: char) -> int
    decreases s.len(),
{
    if s.len() < 2 {
        -1
    } else if s[s.len() - 2] == a && s.last() == b {
        s.len() - 2
    } else {
        last_pair(s.drop_last(), a, b)
    }
}

proof fn lemma_last_pair(s: Seq<char>, a: char, b: char)
    ensures
        -1 <= last_pair(s, a, b) <= s.len() - 2 || last_pair(s, a, b) == -1,
    decreases s.len(),
{
    if s.len() >= 2 && !(s[s.len() - 2] == a && s.last() == b) {
        lemma_last_pair(s.drop_last(), a, b);
    }
}

fn last_pair_exec(s: &[char], a: char, b: char) -> (r: Option<usize>)
    ensures
        match r {
            Some(k) => k == last_pair(s@, a, b) && k + 2 <= s@.len(),
            None => last_pair(s@, a, b) == -1,
        },
{
    let mut n = s.len();
    assert(s@.subrange(0, n as int) =~= s@);
    while n >= 2
        invariant
            n <= s@.len(),
            last_pair(s@, a, b) == last_pair(s@.subrange(0, n as int), a, b),
        decreases n,
    {
        let ghost sub = s@.subrange(0, n as int);
        assert(sub.drop_last() =~= s@.subrange(0, n - 1));
        if s[n - 2] == a && s[n - 1] == b {
            return Some(n - 2);
        }
        n = n - 1;
    }
    None
}

/// Whether a span sits inside a markdown link: in the label or in the
/// target of a `[...](...)`.
pub open spec fn in_link(line: Seq<char>, start: int, end: int) -> bool {
    let before = line.subrange(0, start);
    let after = line.subrange(end, line.len() as int);
    let lb = char_rpos(before, '[');
    let c = char_pos(after, ']');
    let in_label = lb >= 0 && !before.subrange(lb, before.len() as int).contains(']') && c < after.len()
        && c + 1 < after.len() && after[c + 1] == '(';
    let lt = last_pair(before, ']', '(');
    let in_target = lt >= 0 && !before.subrange(lt, before.len() as int).contains(')') && after.contains(')');
    in_label || in_target
}

pub fn enclosing_link(line: &[char], start: usize, end: usize) -> (b: bool)
    requires
        start <= end <= line@.len(),
    ensures
        b == in_link(line@, start as int, end as int),
{
    let before = slice(line, 0, start);
    let after = slice(line, end, line.len());
    proof { lemma_char_rpos(before@, '['); }
    let in_label = match char_rpos_exec(&before, '[') {
        Some(lb) => {
            let tail = slice(&before, lb, before.len());
            let c = char_pos_exec(&after, ']');
            !crate::text::contains_char(&tail, ']') && c < after.len() && c + 1 < after.len() && after[c + 1] == '('
        },
        None => false,
    };
    let in_target = match last_pair_exec(&before, ']', '(') {
        Some(lt) => {
            let tail = slice(&before, lt, before.len());
            !crate::text::contains_char(&tail, ')') && crate::text::contains_char(&after, ')')
        },
        None => false,
    };
    in_label || in_target
}

/// A scanned reference and whether it sits inside a link.
pub struct Scanned {
    pub reference: Reference,
    pub in_link: bool,
}

pub struct ScannedView {
    pub reference: RefView,
    pub in_link: bool,
}

impl View for Scanned {
    type V = ScannedView;

    open spec fn view(&self) -> ScannedView {
        ScannedView { reference: self.reference@, in_link: self.in_link }
    }
}

pub open spec fn scanned_views(v: Seq<Scanned>) -> Seq<ScannedView> {
    v.map_values(|x: Scanned| x@)
}

/// A register reference of `room` starting at `i`: the room, `/`, exactly
/// four digits, and an anchor when `#` and anchor characters follow; not
/// preceded by an alphanumeric character. With where it ends.
pub open spec fn room_at(s: Seq<char>, i: int, room: Seq<char>) -> Option<(ScannedView, int)> {
    if 0 <= i && i + 9 <= s.len() && s.subrange(i, i + 4) == room && s[i + 4] == '/' && (i == 0 || !is_alnum(s[i - 1])) {
        let start = i + 5;
        let de = ascii_digits_end(s, start);
        if de - start == 4 {
            let end0 = start + 4;
            let ae = anchor_end(s, end0 + 1);
            let has_anchor = end0 < s.len() && s[end0] == '#' && ae > end0 + 1;
            let end = if has_anchor { ae } else { end0 };
            let anchor = if has_anchor { Some(s.subrange(end0 + 1, ae)) } else { None };
            Some((
                ScannedView {
                    reference: RefView { kind: RefKind::Register, room, repo: Seq::empty(), number: s.subrange(start, end0), anchor },
                    in_link: in_link(s, i, end),
                },
                end,
            ))
        } else {
            None
        }
    } else {
        None
    }
}

/// A character that can precede `#` in a written repository name.
pub open spec fn repo_char(c: char) -> bool {
    is_alnum(c) || c == '-' || c == '/' || c == '_' || c == '.'
}

pub open spec fn repo_start(s: Seq<char>, i: int) -> int
    decreases i,
{
    if 0 < i <= s.len() && repo_char(s[i - 1]) {
        repo_start(s, i - 1)
    } else {
        i
    }
}

proof fn lemma_repo_start(s: Seq<char>, i: int)
    requires
        0 <= i <= s.len(),
    ensures
        0 <= repo_start(s, i) <= i,
    decreases i,
{
    if 0 < i && repo_char(s[i - 1]) {
        lemma_repo_start(s, i - 1);
    }
}

pub open spec fn is_ascii_hex_letter(c: char) -> bool {
    ('a' <= c && c <= 'f') || ('A' <= c && c <= 'F')
}

/// A written repository is `owner/repo` with both halves, or a bare name,
/// starting with an alphanumeric character; or nothing at all.
pub open spec fn repo_shaped(w: Seq<char>) -> bool {
    w.len() == 0 || (is_alnum(w[0]) && {
        let p = char_pos(w, '/');
        p >= w.len() || (p > 0 && p + 1 < w.len() && !w.subrange(p + 1, w.len() as int).contains('/'))
    })
}

/// An issue reference at a `#` at `i`: one to six digits, no hex letter
/// after them, a repository-shaped name before it, and not a bare six-digit
/// number (a colour). With where it ends.
pub open spec fn issue_at(s: Seq<char>, i: int) -> Option<(ScannedView, int)> {
    if 0 <= i < s.len() && s[i] == '#' {
        let r = repo_start(s, i);
        let written = s.subrange(r, i);
        let de = ascii_digits_end(s, i + 1);
        let nd = de - (i + 1);
        let hex_tail = de < s.len() && is_ascii_hex_letter(s[de]);
        if nd > 0 && nd <= 6 && !hex_tail && repo_shaped(written) && !(nd == 6 && written.len() == 0) {
            Some((
                ScannedView {
                    reference: RefView {
                        kind: RefKind::Issue,
                        room: Seq::empty(),
                        repo: written,
                        number: s.subrange(i + 1, de),
                        anchor: None,
                    },
                    in_link: in_link(s, i, de),
                },
                de,
            ))
        } else {
            None
        }
    } else {
        None
    }
}

/// The references of a line from position `i` on, in order.
pub open spec fn scan_from(s: Seq<char>, i: int) -> Seq<ScannedView>
    decreases s.len() - i,
{
    if i < 0 || i >= s.len() {
        Seq::empty()
    } else {
        let (o1, i1) = match room_at(s, i, "plan"@) {
            Some((x, e)) => (seq![x], e),
            None => (Seq::empty(), i),
        };
        let (o2, i2) = match room_at(s, i1, "call"@) {
            Some((x, e)) => (seq![x], e),
            None => (Seq::empty(), i1),
        };
        if i2 >= s.len() {
            o1 + o2
        } else {
            proof {
                lemma_room_at_advances(s, i, "plan"@);
                lemma_room_at_advances(s, i1, "call"@);
            }
            match issue_at(s, i2) {
                Some((x, e)) => {
                    proof { lemma_issue_at_advances(s, i2); }
                    o1 + o2 + seq![x] + scan_from(s, e)
                },
                None => o1 + o2 + scan_from(s, i2 + 1),
            }
        }
    }
}

pub proof fn lemma_room_at_advances(s: Seq<char>, i: int, room: Seq<char>)
    ensures
        room_at(s, i, room) matches Some((_, e)) ==> i + 9 <= e <= s.len(),
{
    if 0 <= i && i + 9 <= s.len() {
        lemma_ascii_digits_end(s, i + 5);
        if i + 9 < s.len() {
            lemma_anchor_end(s, i + 10);
        }
    }
}

pub proof fn lemma_issue_at_advances(s: Seq<char>, i: int)
    ensures
        issue_at(s, i) matches Some((_, e)) ==> i + 2 <= e <= s.len(),
{
    if 0 <= i < s.len() {
        lemma_ascii_digits_end(s, i + 1);
    }
}

/// The references a line carries, each with whether it sits inside a link.
pub open spec fn line_refs(s: Seq<char>) -> Seq<ScannedView> {
    scan_from(s, 0)
}

fn room_at_exec(s: &[char], i: usize, room: &Vec<char>) -> (r: Option<(Scanned, usize)>)
    requires
        room@.len() == 4,
        i <= s@.len(),
    ensures
        match room_at(s@, i as int, room@) {
            Some((x, e)) => match r {
                Some((y, f)) => y@ == x && f == e,
                None => false,
            },
            None => r is None,
        },
        r matches Some((_, e)) ==> i + 9 <= e <= s@.len(),
{
    proof { lemma_room_at_advances(s@, i as int, room@); }
    if s.len() < 9 || i > s.len() - 9 {
        return None;
    }
    if !eq_chars(&slice(s, i, i + 4), room) || s[i + 4] != '/' {
        return None;
    }
    if !(i == 0 || !char_is_alnum(s[i - 1])) {
        return None;
    }
    let start = i + 5;
    let de = ascii_digits_end_exec(s, start);
    if de - start != 4 {
        return None;
    }
    let end0 = start + 4;
    let mut end = end0;
    let mut anchor: Option<String> = None;
    if end0 < s.len() && s[end0] == '#' {
        let ae = anchor_end_exec(s, end0 + 1);
        if ae > end0 + 1 {
            anchor = Some(string_of(&slice(s, end0 + 1, ae)));
            end = ae;
        }
    }
    let link = enclosing_link(s, i, end);
    Some((Scanned {
        reference: Reference {
            kind: RefKind::Register,
            room: string_of(room),
            repo: String::new(),
            number: string_of(&slice(s, start, end0)),
            anchor,
        },
        in_link: link,
    }, end))
}

fn repo_start_exec(s: &[char], i: usize) -> (r: usize)
    requires
        i <= s@.len(),
    ensures
        r == repo_start(s@, i as int),
        r <= i,
{
    let mut r = i;
    proof { lemma_repo_start(s@, i as int); }
    while r > 0 && (char_is_alnum(s[r - 1]) || s[r - 1] == '-' || s[r - 1] == '/' || s[r - 1] == '_' || s[r - 1] == '.')
        invariant
            r <= i <= s@.len(),
            repo_start(s@, i as int) == repo_start(s@, r as int),
        decreases r,
    {
        r = r - 1;
    }
    r
}

fn repo_shaped_exec(w: &[char]) -> (b: bool)
    ensures
        b == repo_shaped(w@),
{
    if w.len() == 0 {
        return true;
    }
    if !char_is_alnum(w[0]) {
        return false;
    }
    let p = char_pos_exec(w, '/');
    if p >= w.len() {
        return true;
    }
    p > 0 && p + 1 < w.len() && !crate::text::contains_char(&slice(w, p + 1, w.len()), '/')
}

fn issue_at_exec(s: &[char], i: usize) -> (r: Option<(Scanned, usize)>)
    requires
        i < s@.len(),
    ensures
        match issue_at(s@, i as int) {
            Some((x, e)) => match r {
                Some((y, f)) => y@ == x && f == e,
                None => false,
            },
            None => r is None,
        },
        r matches Some((_, e)) ==> i + 2 <= e <= s@.len(),
{
    proof { lemma_issue_at_advances(s@, i as int); }
    if s[i] != '#' {
        return None;
    }
    let r = repo_start_exec(s, i);
    let written = slice(s, r, i);
    let de = ascii_digits_end_exec(s, i + 1);
    let nd = de - (i + 1);
    let hex_tail = de < s.len() && (('a' <= s[de] && s[de] <= 'f') || ('A' <= s[de] && s[de] <= 'F'));
    if nd > 0 && nd <= 6 && !hex_tail && repo_shaped_exec(&written) && !(nd == 6 && written.len() == 0) {
        let link = enclosing_link(s, i, de);
        Some((Scanned {
            reference: Reference {
                kind: RefKind::Issue,
                room: String::new(),
                repo: string_of(&written),
                number: string_of(&slice(s, i + 1, de)),
                anchor: None,
            },
            in_link: link,
        }, de))
    } else {
        None
    }
}

/// One step of the scan at `i`: the references found there and where the
/// scan goes on.
#[verifier::spinoff_prover]
#[verifier::rlimit(40)]
fn scan_step(line: &[char], i: usize, plan: &Vec<char>, call: &Vec<char>) -> (r: (Vec<Scanned>, usize))
    requires
        i < line@.len(),
        plan@ == "plan"@ && plan@.len() == 4,
        call@ == "call"@ && call@.len() == 4,
    ensures
        i < r.1 <= line@.len(),
        scan_from(line@, i as int) == scanned_views(r.0@) + scan_from(line@, r.1 as int),
{
    let mut found: Vec<Scanned> = Vec::new();
    let mut j = i;
    match room_at_exec(line, j, plan) {
        Some((x, e)) => {
            found.push(x);
            j = e;
        },
        None => {},
    }
    match room_at_exec(line, j, call) {
        Some((x, e)) => {
            found.push(x);
            j = e;
        },
        None => {},
    }
    let ghost o12 = scanned_views(found@);
    if j >= line.len() {
        assert(scan_from(line@, i as int) =~= o12);
        assert(scan_from(line@, j as int) =~= Seq::<ScannedView>::empty());
        assert(o12 + scan_from(line@, j as int) =~= o12);
        return (found, j);
    }
    match issue_at_exec(line, j) {
        Some((x, e)) => {
            let ghost xv = x@;
            found.push(x);
            assert(scanned_views(found@) =~= o12.push(xv));
            assert(scan_from(line@, i as int) =~= o12 + seq![xv] + scan_from(line@, e as int));
            assert(o12 + seq![xv] + scan_from(line@, e as int) =~= o12.push(xv) + scan_from(line@, e as int));
            (found, e)
        },
        None => {
            assert(scan_from(line@, i as int) =~= o12 + scan_from(line@, j + 1));
            (found, j + 1)
        },
    }
}

fn append_scanned(out: &mut Vec<Scanned>, more: Vec<Scanned>)
    ensures
        scanned_views(final(out)@) == scanned_views(old(out)@) + scanned_views(more@),
{
    let ghost start = scanned_views(out@);
    let mut more = more;
    let ghost all = scanned_views(more@);
    let mut rev: Vec<Scanned> = Vec::new();
    while more.len() > 0
        invariant
            scanned_views(more@) + scanned_views(rev@).reverse() == all,
            scanned_views(out@) == start,
        decreases more.len(),
    {
        let ghost mb = scanned_views(more@);
        let ghost rb = scanned_views(rev@);
        let x = more.pop().unwrap();
        rev.push(x);
        assert(scanned_views(more@) + scanned_views(rev@).reverse() =~= all) by {
            assert(mb =~= scanned_views(more@).push(x@));
            assert(scanned_views(rev@) =~= rb.push(x@));
            assert(scanned_views(rev@).reverse() =~= seq![x@] + rb.reverse());
        }
    }
    assert(scanned_views(more@) =~= Seq::<ScannedView>::empty());
    while rev.len() > 0
        invariant
            scanned_views(out@) + scanned_views(rev@).reverse() == start + all,
        decreases rev.len(),
    {
        let ghost ob = scanned_views(out@);
        let ghost rb = scanned_views(rev@);
        let x = rev.pop().unwrap();
        out.push(x);
        assert(scanned_views(out@) + scanned_views(rev@).reverse() =~= start + all) by {
            assert(rb =~= scanned_views(rev@).push(x@));
            assert(rb.reverse() =~= seq![x@] + scanned_views(rev@).reverse());
            assert(scanned_views(out@) =~= ob.push(x@));
        }
    }
    assert(scanned_views(rev@).reverse() =~= Seq::<ScannedView>::empty());
    assert(scanned_views(out@) =~= start + all);
}

/// The references a line carries, in order, each with whether it sits
/// inside a markdown link.
pub fn scan_line(line: &[char]) -> (out: Vec<Scanned>)
    ensures
        scanned_views(out@) == line_refs(line@),
{
    let plan = chars_of("plan");
    let call = chars_of("call");
    proof {
        reveal_strlit("plan");
        reveal_strlit("call");
    }
    let mut out: Vec<Scanned> = Vec::new();
    let mut i: usize = 0;
    assert(scanned_views(out@) + scan_from(line@, 0) =~= line_refs(line@));
    while i < line.len()
        invariant
            i <= line@.len(),
            plan@ == "plan"@ && plan@.len() == 4,
            call@ == "call"@ && call@.len() == 4,
            scanned_views(out@) + scan_from(line@, i as int) == line_refs(line@),
        decreases line.len() - i,
    {
        let ghost before = scanned_views(out@);
        let (found, next) = scan_step(line, i, &plan, &call);
        let ghost fv = scanned_views(found@);
        append_scanned(&mut out, found);
        assert(scanned_views(out@) + scan_from(line@, next as int) =~= before + (fv + scan_from(line@, next as int)));
        i = next;
    }
    assert(scan_from(line@, i as int) =~= Seq::<ScannedView>::empty());
    assert(scanned_views(out@) =~= line_refs(line@));
    out
}
// ---------------------------------------------------------------------------
// Code spans.
// ---------------------------------------------------------------------------

/// The end of the run of backticks starting at `j`.
pub open spec fn tick_end(s: Seq<char>, j: int) -> int
    decreases s.len() - j,
{
    if 0 <= j < s.len() && s[j] == '`' {
        tick_end(s, j + 1)
    } else {
        j
    }
}

pub proof fn lemma_tick_end(s: Seq<char>, j: int)
    requires
        0 <= j <= s.len(),
    ensures
        j <= tick_end(s, j) <= s.len(),
        forall|k: int| j <= k < tick_end(s, j) ==> s[k] == '`',
        j < s.len() && s[j] == '`' ==> tick_end(s, j) > j,
    decreases s.len() - j,
{
    if j < s.len() && s[j] == '`' {
        lemma_tick_end(s, j + 1);
    }
}

/// From `j`, the next run of exactly `open` backticks, as its start and end.
pub open spec fn find_close(s: Seq<char>, j: int, open: int) -> Option<(int, int)>
    decreases s.len() - j,
{
    if j < 0 || j >= s.len() {
        None
    } else if s[j] == '`' {
        let e = tick_end(s, j);
        proof { lemma_tick_end(s, j); }
        if e - j == open {
            Some((j, e))
        } else {
            find_close(s, e, open)
        }
    } else {
        find_close(s, j + 1, open)
    }
}

pub proof fn lemma_find_close(s: Seq<char>, j: int, open: int)
    requires
        0 <= j <= s.len(),
    ensures
        find_close(s, j, open) matches Some((a, b)) ==> j <= a < b <= s.len(),
    decreases s.len() - j,
{
    if j < s.len() {
        if s[j] == '`' {
            lemma_tick_end(s, j);
            let e = tick_end(s, j);
            if e - j != open {
                lemma_find_close(s, e, open);
            }
        } else {
            lemma_find_close(s, j + 1, open);
        }
    }
}

/// The inline code spans from position `i` on: an opening run of backticks
/// matched with the next run of the same length; an unmatched run quotes
/// nothing.
pub open spec fn spans_from(s: Seq<char>, i: int) -> Seq<(int, int)>
    decreases s.len() - i,
{
    if i < 0 || i >= s.len() {
        Seq::empty()
    } else if s[i] != '`' {
        spans_from(s, i + 1)
    } else {
        let e = tick_end(s, i);
        proof {
            lemma_tick_end(s, i);
            lemma_find_close(s, e, e - i);
        }
        match find_close(s, e, e - i) {
            Some((_, end)) => seq![(i, end)] + spans_from(s, end),
            None => spans_from(s, e),
        }
    }
}

pub open spec fn in_spans(sp: Seq<(int, int)>, k: int) -> bool {
    exists|m: int| 0 <= m < sp.len() && (#[trigger] sp[m]).0 <= k < sp[m].1
}

/// The text with every character inside a code span but a line feed
/// written as a space, so every other column stays where it was.
pub open spec fn masked(s: Seq<char>) -> Seq<char> {
    Seq::new(s.len(), |k: int| if s[k] != '\n' && in_spans(spans_from(s, 0), k) { ' ' } else { s[k] })
}

pub open spec fn mask_with(s: Seq<char>, sp: Seq<(int, int)>) -> Seq<char> {
    Seq::new(s.len(), |k: int| if s[k] != '\n' && in_spans(sp, k) { ' ' } else { s[k] })
}

fn tick_end_exec(s: &[char], j: usize) -> (e: usize)
    requires
        j <= s@.len(),
    ensures
        e == tick_end(s@, j as int),
        j <= e <= s@.len(),
{
    let mut i = j;
    proof { lemma_tick_end(s@, j as int); }
    while i < s.len() && s[i] == '`'
        invariant
            j <= i <= s@.len(),
            tick_end(s@, j as int) == tick_end(s@, i as int),
        decreases s.len() - i,
    {
        i = i + 1;
    }
    i
}

fn find_close_exec(s: &[char], j: usize, open: usize) -> (r: Option<usize>)
    requires
        j <= s@.len(),
    ensures
        match find_close(s@, j as int, open as int) {
            Some((_, b)) => r is Some && r->0 as int == b,
            None => r is None,
        },
        r matches Some(b) ==> j < b <= s@.len(),
{
    let mut k = j;
    proof { lemma_find_close(s@, j as int, open as int); }
    while k < s.len()
        invariant
            j <= k <= s@.len(),
            find_close(s@, j as int, open as int) == find_close(s@, k as int, open as int),
        decreases s.len() - k,
    {
        proof { lemma_find_close(s@, k as int, open as int); }
        if s[k] == '`' {
            let e = tick_end_exec(s, k);
            proof { lemma_tick_end(s@, k as int); }
            if e - k == open {
                return Some(e);
            }
            k = e;
        } else {
            k = k + 1;
        }
    }
    None
}

/// Blank out every inline code span of a text.
pub fn mask_code_spans(buf: &[char]) -> (r: Vec<char>)
    ensures
        r@ == masked(buf@),
{
    let s = buf;
    let mut out = slice(s, 0, s.len());
    assert(out@ =~= s@);
    let ghost mut done: Seq<(int, int)> = Seq::empty();
    assert(mask_with(s@, done) =~= s@);
    let mut i: usize = 0;
    assert(spans_from(s@, 0) =~= done + spans_from(s@, 0));
    while i < s.len()
        invariant
            i <= s@.len(),
            out@ == mask_with(s@, done),
            spans_from(s@, 0) == done + spans_from(s@, i as int),
            forall|m: int| 0 <= m < done.len() ==> 0 <= (#[trigger] done[m]).0 < done[m].1 <= i,
        decreases s.len() - i,
    {
        if s[i] != '`' {
            i = i + 1;
            continue;
        }
        let start = i;
        let e = tick_end_exec(s, i);
        proof { lemma_tick_end(s@, start as int); }
        let close = find_close_exec(s, e, e - start);
        match close {
            Some(end) => {
                let ghost nd = done.push((start as int, end as int));
                assert(s@[start as int] == '`');
                assert(tick_end(s@, start as int) == e as int);
                let ghost fc = find_close(s@, e as int, (e - start) as int);
                assert(match fc {
                    Some((_, b)) => b == end as int,
                    None => false,
                });
                assert(spans_from(s@, start as int) == seq![(start as int, end as int)] + spans_from(s@, end as int));
                let mut k = start;
                while k < end
                    invariant
                        start <= k <= end <= s@.len(),
                        out@.len() == s@.len(),
                        forall|m: int| 0 <= m < done.len() ==> 0 <= (#[trigger] done[m]).0 < done[m].1 <= start,
                        forall|q: int| 0 <= q < s@.len() ==> (#[trigger] out@[q]) == (if start <= q < k && s@[q] != '\n' {
                            ' '
                        } else {
                            mask_with(s@, done)[q]
                        }),
                    decreases end - k,
                {
                    proof {
                        if in_spans(done, k as int) {
                            let m = choose|m: int| 0 <= m < done.len() && (#[trigger] done[m]).0 <= k < done[m].1;
                        }
                    }
                    if out[k] != '\n' {
                        out.set(k, ' ');
                    }
                    k = k + 1;
                }
                proof {
                    assert forall|q: int| 0 <= q < s@.len() implies (#[trigger] out@[q]) == mask_with(s@, nd)[q] by {
                        if start <= q < end {
                            assert(nd[done.len() as int] == (start as int, end as int));
                        } else {
                            if in_spans(nd, q) {
                                let m = choose|m: int| 0 <= m < nd.len() && (#[trigger] nd[m]).0 <= q < nd[m].1;
                                if m < done.len() {
                                    assert(nd[m] == done[m]);
                                }
                            }
                            if in_spans(done, q) {
                                let m = choose|m: int| 0 <= m < done.len() && (#[trigger] done[m]).0 <= q < done[m].1;
                                assert(nd[m] == done[m]);
                            }
                        }
                    }
                    assert(out@ =~= mask_with(s@, nd));
                    assert(spans_from(s@, 0) =~= nd + spans_from(s@, end as int));
                    done = nd;
                }
                i = end;
            },
            None => {
                assert(spans_from(s@, start as int) == spans_from(s@, e as int));
                i = e;
            },
        }
    }
    assert(spans_from(s@, i as int) =~= Seq::<(int, int)>::empty());
    assert(done =~= spans_from(s@, 0));
    assert(out@ =~= masked(s@));
    out
}

// ---------------------------------------------------------------------------
// The prose of a document.
// ---------------------------------------------------------------------------

/// Blockquote markers off: while the line, past its spaces, starts with
/// `>`, that marker and one space after it go. Indentation after the
/// markers stays.
pub open spec fn unquote(b: Seq<char>) -> Seq<char>
    decreases b.len(),
{
    let t = trim_matches_start(b, ' ');
    if t.len() > 0 && t[0] == '>' {
        let rest = t.drop_first();
        proof { lemma_trim_matches_start_len(b, ' '); }
        unquote(if rest.len() > 0 && rest[0] == ' ' { rest.drop_first() } else { rest })
    } else {
        b
    }
}

pub proof fn lemma_trim_matches_start_len(s: Seq<char>, c: char)
    ensures
        trim_matches_start(s, c).len() <= s.len(),
        trim_matches_start(s, c) == s.subrange(s.len() - trim_matches_start(s, c).len(), s.len() as int),
    decreases s.len(),
{
    if s.len() > 0 && s[0] == c {
        lemma_trim_matches_start_len(s.drop_first(), c);
        assert(s.drop_first().subrange(s.drop_first().len() - trim_matches_start(s, c).len(), s.drop_first().len() as int)
            =~= s.subrange(s.len() - trim_matches_start(s, c).len(), s.len() as int));
    } else {
        assert(s.subrange(0, s.len() as int) =~= s);
    }
}

/// The length of the run of `c` that starts a text.
pub open spec fn lead_run(t: Seq<char>, c: char) -> int
    decreases t.len(),
{
    if t.len() > 0 && t[0] == c {
        1 + lead_run(t.drop_first(), c)
    } else {
        0
    }
}

pub proof fn lemma_lead_run(t: Seq<char>, c: char)
    ensures
        0 <= lead_run(t, c) <= t.len(),
    decreases t.len(),
{
    if t.len() > 0 && t[0] == c {
        lemma_lead_run(t.drop_first(), c);
    }
}

/// What the prose reader knows after some lines: the kept lines with their
/// numbers, the open fence (marker and length), and whether a comment, an
/// indented code block, or a blank line is behind it.
pub struct ProseState {
    pub kept: Seq<(int, Seq<char>)>,
    pub fence: Option<(char, int)>,
    pub in_comment: bool,
    pub in_indented: bool,
    pub prev_blank: bool,
}

pub open spec fn prose_step(st: ProseState, n: int, raw: Seq<char>) -> ProseState {
    let body = unquote(raw);
    let t = trim_start(body);
    if st.in_comment {
        match find_first(t, "-->"@) {
            Some(p) => ProseState { in_comment: false, kept: st.kept.push((n + 1, t.subrange(p + 3, t.len() as int))), ..st },
            None => st,
        }
    } else {
        match st.fence {
            Some((marker, len)) => {
                let run = lead_run(t, marker);
                if run >= len && trim(t.subrange(run, t.len() as int)).len() == 0 {
                    ProseState { fence: None, ..st }
                } else {
                    st
                }
            },
            None => {
                let run = lead_run(t, '`');
                let tilde = lead_run(t, '~');
                if run >= 3 {
                    ProseState { fence: Some(('`', run)), ..st }
                } else if tilde >= 3 {
                    ProseState { fence: Some(('~', tilde)), ..st }
                } else {
                    let blank = t.len() == 0;
                    let indented = starts_with(body, "    "@) || (body.len() > 0 && body[0] == '\t');
                    if !blank && indented && (st.prev_blank || st.in_indented) {
                        ProseState { in_indented: true, prev_blank: false, ..st }
                    } else {
                        let ii = if !blank && !indented { false } else { st.in_indented };
                        match find_first(t, "<!--"@) {
                            Some(p) => {
                                let from = t.subrange(p, t.len() as int);
                                match find_first(from, "-->"@) {
                                    Some(e) => ProseState {
                                        kept: st.kept.push((n + 1, t.subrange(0, p) + t.subrange(p + e + 3, t.len() as int))),
                                        in_indented: ii,
                                        prev_blank: blank,
                                        ..st
                                    },
                                    None => ProseState {
                                        kept: st.kept.push((n + 1, t.subrange(0, p))),
                                        in_comment: true,
                                        in_indented: ii,
                                        prev_blank: blank,
                                        ..st
                                    },
                                }
                            },
                            None => ProseState { kept: st.kept.push((n + 1, body)), in_indented: ii, prev_blank: blank, ..st },
                        }
                    }
                }
            },
        }
    }
}

pub open spec fn prose_scan(ls: Seq<Seq<char>>) -> ProseState
    decreases ls.len(),
{
    if ls.len() == 0 {
        ProseState { kept: Seq::empty(), fence: None, in_comment: false, in_indented: false, prev_blank: true }
    } else {
        prose_step(prose_scan(ls.drop_last()), ls.len() - 1, ls.last())
    }
}

/// A document's prose: its kept lines with their line numbers, after the
/// code spans across them are blanked out. Fenced blocks (in a blockquote
/// too), indented code blocks and HTML comments are gone.
pub open spec fn prose(text: Seq<char>) -> Seq<(int, Seq<char>)> {
    let kept = prose_scan(lines(text)).kept;
    let pieces = split_on(masked(joined(kept.map_values(|p: (int, Seq<char>)| p.1), "\n"@)), '\n');
    let n = if kept.len() < pieces.len() { kept.len() } else { pieces.len() };
    Seq::new(n as nat, |k: int| (kept[k].0, pieces[k]))
}

fn unquote_exec(raw: &[char]) -> (r: Vec<char>)
    ensures
        r@ == unquote(raw@),
    decreases raw@.len(),
{
    let t = crate::text::trim_start_matches_exec(raw, ' ');
    proof { lemma_trim_matches_start_len(raw@, ' '); }
    if t.len() > 0 && t[0] == '>' {
        let rest = slice(&t, 1, t.len());
        assert(rest@ =~= t@.drop_first());
        let next = if rest.len() > 0 && rest[0] == ' ' { slice(&rest, 1, rest.len()) } else { rest };
        assert(next@ == (if rest@.len() > 0 && rest@[0] == ' ' { rest@.drop_first() } else { rest@ })) by {
            if rest@.len() > 0 && rest@[0] == ' ' {
                assert(rest@.subrange(1, rest@.len() as int) =~= rest@.drop_first());
            }
        }
        unquote_exec(&next)
    } else {
        slice(raw, 0, raw.len())
    }
}

fn lead_run_exec(t: &[char], c: char) -> (n: usize)
    ensures
        n == lead_run(t@, c),
        n <= t@.len(),
{
    let mut i: usize = 0;
    proof { lemma_lead_run(t@, c); }
    assert(t@.subrange(0, t@.len() as int) =~= t@);
    while i < t.len() && t[i] == c
        invariant
            i <= t@.len(),
            lead_run(t@, c) == i + lead_run(t@.subrange(i as int, t@.len() as int), c),
        decreases t.len() - i,
    {
        assert(t@.subrange(i as int, t@.len() as int).drop_first() =~= t@.subrange(i + 1, t@.len() as int));
        i = i + 1;
    }
    i
}

/// The prose reader's state as the program holds it.
struct ProseReader {
    kept: Vec<(usize, Vec<char>)>,
    fence: Option<(char, usize)>,
    in_comment: bool,
    in_indented: bool,
    prev_blank: bool,
}

spec fn kept_views(v: Seq<(usize, Vec<char>)>) -> Seq<(int, Seq<char>)> {
    v.map_values(|p: (usize, Vec<char>)| (p.0 as int, p.1@))
}

spec fn reader_view(r: &ProseReader) -> ProseState {
    ProseState {
        kept: kept_views(r.kept@),
        fence: match r.fence {
            Some((m, l)) => Some((m, l as int)),
            None => None,
        },
        in_comment: r.in_comment,
        in_indented: r.in_indented,
        prev_blank: r.prev_blank,
    }
}

fn push_kept(r: &mut ProseReader, n: usize, l: Vec<char>)
    ensures
        reader_view(final(r)) == (ProseState { kept: reader_view(old(r)).kept.push((n as int, l@)), ..reader_view(old(r)) }),
{
    let ghost b = kept_views(r.kept@);
    let ghost lv = l@;
    r.kept.push((n, l));
    assert(kept_views(r.kept@) =~= b.push((n as int, lv)));
}

fn find_lit(t: &[char], lit: &str) -> (r: Option<usize>)
    ensures
        match r {
            Some(p) => find_first(t@, lit@) == Some(p as int) && p + lit@.len() <= t@.len(),
            None => find_first(t@, lit@) is None,
        },
{
    let p = chars_of(lit);
    match crate::text::find(t, &p) {
        Some(i) => {
            proof { crate::text::lemma_find_first(t@, p@, i as int); }
            Some(i)
        },
        None => None,
    }
}

#[verifier::rlimit(60)]
fn prose_step_exec(r: &mut ProseReader, n: usize, raw: &[char])
    requires
        n < usize::MAX,
    ensures
        reader_view(final(r)) == prose_step(reader_view(old(r)), n as int, raw@),
{
    let body = unquote_exec(raw);
    let ti = crate::text::trim_start_index(&body);
    let t = slice(&body, ti, body.len());
    proof {
        reveal_strlit("-->");
        reveal_strlit("<!--");
        reveal_strlit("    ");
    }
    if r.in_comment {
        match find_lit(&t, "-->") {
            Some(p) => {
                r.in_comment = false;
                let rest = slice(&t, p + 3, t.len());
                push_kept(r, n + 1, rest);
            },
            None => {},
        }
        return;
    }
    match r.fence {
        Some((marker, len)) => {
            let run = lead_run_exec(&t, marker);
            let tail = crate::text::trim_exec(&slice(&t, run, t.len()));
            if run >= len && tail.len() == 0 {
                r.fence = None;
            }
            return;
        },
        None => {},
    }
    let run = lead_run_exec(&t, '`');
    let tilde = lead_run_exec(&t, '~');
    if run >= 3 {
        r.fence = Some(('`', run));
        return;
    }
    if tilde >= 3 {
        r.fence = Some(('~', tilde));
        return;
    }
    let blank = t.len() == 0;
    let indented = crate::text::starts_with_exec(&body, &chars_of("    ")) || (body.len() > 0 && body[0] == '\t');
    if !blank && indented && (r.prev_blank || r.in_indented) {
        r.in_indented = true;
        r.prev_blank = false;
        return;
    }
    if !blank && !indented {
        r.in_indented = false;
    }
    r.prev_blank = blank;
    match find_lit(&t, "<!--") {
        Some(p) => {
            let from = slice(&t, p, t.len());
            match find_lit(&from, "-->") {
                Some(e) => {
                    let l = crate::text::concat(&slice(&t, 0, p), &slice(&t, p + e + 3, t.len()));
                    push_kept(r, n + 1, l);
                },
                None => {
                    r.in_comment = true;
                    push_kept(r, n + 1, slice(&t, 0, p));
                },
            }
        },
        None => {
            push_kept(r, n + 1, body);
        },
    }
}

/// A document's prose, line by line with line numbers: fenced blocks,
/// indented code blocks, HTML comments and inline code spans removed.
pub fn prose_of(text: &str) -> (out: Vec<(usize, String)>)
    ensures
        out@.len() == prose(text@).len(),
        forall|k: int| 0 <= k < out@.len() ==> (#[trigger] out@[k]).0 as int == prose(text@)[k].0 && out@[k].1@ == prose(
            text@,
        )[k].1,
{
    let ls = crate::text::lines_exec(&chars_of(text));
    let mut r = ProseReader { kept: Vec::new(), fence: None, in_comment: false, in_indented: false, prev_blank: true };
    let mut i: usize = 0;
    assert(crate::text::views(ls@).subrange(0, 0) =~= Seq::<Seq<char>>::empty());
    assert(kept_views(r.kept@) =~= Seq::<(int, Seq<char>)>::empty());
    while i < ls.len()
        invariant
            i <= ls@.len(),
            crate::text::views(ls@) == lines(text@),
            reader_view(&r) == prose_scan(crate::text::views(ls@).subrange(0, i as int)),
        decreases ls.len() - i,
    {
        let ghost sub = crate::text::views(ls@).subrange(0, i + 1);
        assert(sub.drop_last() =~= crate::text::views(ls@).subrange(0, i as int));
        assert(sub.last() == ls@[i as int]@);
        prose_step_exec(&mut r, i, &ls[i]);
        i = i + 1;
    }
    assert(crate::text::views(ls@).subrange(0, ls@.len() as int) =~= crate::text::views(ls@));
    let ghost kv = kept_views(r.kept@);
    let mut texts: Vec<String> = Vec::new();
    let mut k: usize = 0;
    while k < r.kept.len()
        invariant
            k <= r.kept@.len(),
            kv == kept_views(r.kept@),
            crate::text::string_views(texts@) == kv.map_values(|p: (int, Seq<char>)| p.1).subrange(0, k as int),
        decreases r.kept.len() - k,
    {
        let ghost b = crate::text::string_views(texts@);
        let t = string_of(&r.kept[k].1);
        texts.push(t);
        assert(crate::text::string_views(texts@) =~= b.push(r.kept@[k as int].1@));
        assert(kv.map_values(|p: (int, Seq<char>)| p.1).subrange(0, k + 1) =~= kv.map_values(|p: (int, Seq<char>)| p.1).subrange(0, k as int).push(r.kept@[k as int].1@));
        k = k + 1;
    }
    assert(kv.map_values(|p: (int, Seq<char>)| p.1).subrange(0, r.kept@.len() as int) =~= kv.map_values(|p: (int, Seq<char>)| p.1));
    let joined_text = crate::text::join_texts(&texts, "\n");
    let m = mask_code_spans(&chars_of(joined_text.as_str()));
    let pieces = crate::text::split_exec(&m, '\n');
    let ghost pv = crate::text::views(pieces@);
    let mut out: Vec<(usize, String)> = Vec::new();
    let mut j: usize = 0;
    while j < r.kept.len() && j < pieces.len()
        invariant
            j <= r.kept@.len(),
            j <= pieces@.len(),
            kv == kept_views(r.kept@),
            pv == crate::text::views(pieces@),
            out@.len() == j,
            forall|q: int| 0 <= q < j ==> (#[trigger] out@[q]).0 as int == kv[q].0 && out@[q].1@ == pv[q],
        decreases r.kept.len() - j,
    {
        let t = string_of(&pieces[j]);
        out.push((r.kept[j].0, t));
        j = j + 1;
    }
    proof {
        let kept = prose_scan(lines(text@)).kept;
        assert(kept == kv);
    }
    out
}

// ---------------------------------------------------------------------------
// The tree a reference resolves against.
// ---------------------------------------------------------------------------

/// One entry of a room directory.
#[derive(Debug, Clone, PartialEq, Eq)]
pub struct RoomEntry {
    pub name: String,
    pub is_dir: bool,
    /// Whether the entry resolves to something (a dangling link does not).
    pub exists: bool,
    /// Whether a directory entry holds a `README.md`.
    pub has_readme: bool,
}

/// A room directory present in the tree, with its entries.
#[derive(Debug, Clone, PartialEq, Eq)]
pub struct Room {
    pub name: String,
    pub entries: Vec<RoomEntry>,
}

/// What the program read of a tree for resolving references.
#[derive(Debug, Clone, PartialEq, Eq)]
pub struct RefTree {
    /// The room directories present (`plan`, `call`).
    pub rooms: Vec<Room>,
    /// The origin remote's URL, when there is one.
    pub origin_url: Option<String>,
    /// `git symbolic-ref --short refs/remotes/origin/HEAD`, when it answered.
    pub origin_head: Option<String>,
    /// `git symbolic-ref --short HEAD`, when it answered.
    pub head: Option<String>,
    /// The software recipe's text and `.gitmodules`, when readable.
    pub recipe_text: Option<String>,
    pub gitmodules_text: Option<String>,
}

pub open spec fn room_index(rooms: Seq<Room>, name: Seq<char>) -> int
    decreases rooms.len(),
{
    if rooms.len() == 0 {
        -1
    } else if rooms.last().name@ == name {
        rooms.len() - 1
    } else {
        room_index(rooms.drop_last(), name)
    }
}

proof fn lemma_room_index(rooms: Seq<Room>, name: Seq<char>)
    ensures
        -1 <= room_index(rooms, name) < rooms.len(),
        room_index(rooms, name) >= 0 ==> rooms[room_index(rooms, name)].name@ == name,
        room_index(rooms, name) == -1 ==> forall|k: int| 0 <= k < rooms.len() ==> (#[trigger] rooms[k]).name@ != name,
    decreases rooms.len(),
{
    if rooms.len() > 0 && rooms.last().name@ != name {
        lemma_room_index(rooms.drop_last(), name);
        if room_index(rooms, name) == -1 {
            assert forall|k: int| 0 <= k < rooms.len() implies (#[trigger] rooms[k]).name@ != name by {
                if k < rooms.len() - 1 {
                    assert(rooms[k] == rooms.drop_last()[k]);
                }
            }
        }
    }
}

fn room_index_exec(rooms: &Vec<Room>, name: &[char]) -> (r: Option<usize>)
    ensures
        match r {
            Some(k) => k as int == room_index(rooms@, name@) && k < rooms@.len(),
            None => room_index(rooms@, name@) == -1,
        },
{
    let mut i = rooms.len();
    assert(rooms@.subrange(0, i as int) =~= rooms@);
    while i > 0
        invariant
            i <= rooms@.len(),
            room_index(rooms@, name@) == room_index(rooms@.subrange(0, i as int), name@),
        decreases i,
    {
        let ghost sub = rooms@.subrange(0, i as int);
        assert(sub.drop_last() =~= rooms@.subrange(0, i - 1));
        assert(sub.last() == rooms@[i - 1]);
        if eq_chars(&chars_of(rooms[i - 1].name.as_str()), name) {
            return Some(i - 1);
        }
        i = i - 1;
    }
    None
}

/// Whether an entry's name carries the number: the number, then `-`.
pub open spec fn names_number(name: Seq<char>, number: Seq<char>) -> bool {
    name.len() > number.len() && name.subrange(0, number.len() as int) == number && name[number.len() as int] == '-'
}

pub open spec fn numbered(es: Seq<RoomEntry>, number: Seq<char>) -> Seq<Seq<char>>
    decreases es.len(),
{
    if es.len() == 0 {
        Seq::empty()
    } else if names_number(es.last().name@, number) {
        numbered(es.drop_last(), number).push(es.last().name@)
    } else {
        numbered(es.drop_last(), number)
    }
}

/// The names of the room's entries carrying the reference's number. More
/// than one is an ambiguity to refuse, never a first match to take.
pub open spec fn matches_of(tree: RefTree, r: RefView) -> Seq<Seq<char>> {
    let k = room_index(tree.rooms@, r.room);
    if r.kind != RefKind::Register || k < 0 {
        Seq::empty()
    } else {
        numbered(tree.rooms@[k].entries@, r.number)
    }
}

fn names_number_exec(name: &[char], number: &[char]) -> (b: bool)
    ensures
        b == names_number(name@, number@),
{
    name.len() > number.len() && eq_chars(&slice(name, 0, number.len()), number) && name[number.len()] == '-'
}

fn numbered_names(tree: &RefTree, reference: &Reference) -> (found: Vec<Vec<char>>)
    ensures
        crate::text::views(found@) == matches_of(*tree, reference@),
{
    let mut found: Vec<Vec<char>> = Vec::new();
    if reference.kind != RefKind::Register {
        assert(crate::text::views(found@) =~= matches_of(*tree, reference@));
        return found;
    }
    let k = match room_index_exec(&tree.rooms, &chars_of(reference.room.as_str())) {
        Some(k) => k,
        None => {
            assert(crate::text::views(found@) =~= matches_of(*tree, reference@));
            return found;
        },
    };
    let es = &tree.rooms[k].entries;
    let num = chars_of(reference.number.as_str());
    let mut i: usize = 0;
    assert(es@.subrange(0, 0) =~= Seq::<RoomEntry>::empty());
    assert(crate::text::views(found@) =~= Seq::<Seq<char>>::empty());
    while i < es.len()
        invariant
            i <= es@.len(),
            num@ == reference@.number,
            crate::text::views(found@) == numbered(es@.subrange(0, i as int), reference@.number),
        decreases es.len() - i,
    {
        let ghost sub = es@.subrange(0, i + 1);
        assert(sub.drop_last() =~= es@.subrange(0, i as int));
        assert(sub.last() == es@[i as int]);
        let nm = chars_of(es[i].name.as_str());
        if names_number_exec(&nm, &num) {
            let ghost b = crate::text::views(found@);
            found.push(nm);
            assert(crate::text::views(found@) =~= b.push(es@[i as int].name@));
        }
        i = i + 1;
    }
    assert(es@.subrange(0, es@.len() as int) =~= es@);
    found
}

/// The names of the entries carrying the reference's number, in name order.
pub open spec fn name_order(tree: RefTree, r: RefView) -> Seq<Seq<char>> {
    choose|n: Seq<Seq<char>>| crate::text::sorted_texts(n) && n.to_multiset() == matches_of(tree, r).to_multiset()
}

/// Every entry of the room carrying the reference's number, in name order.
pub fn entry_matches(tree: &RefTree, reference: &Reference) -> (out: Vec<String>)
    ensures
        crate::text::string_views(out@) == name_order(*tree, reference@),
        crate::text::string_views(out@).to_multiset() == matches_of(*tree, reference@).to_multiset(),
{
    let found = numbered_names(tree, reference);
    let sorted = crate::text::sort_texts(found);
    let mut out: Vec<String> = Vec::new();
    let mut j: usize = 0;
    while j < sorted.len()
        invariant
            j <= sorted@.len(),
            crate::text::string_views(out@) == crate::text::views(sorted@).subrange(0, j as int),
        decreases sorted.len() - j,
    {
        let ghost b = crate::text::string_views(out@);
        let t = string_of(&sorted[j]);
        out.push(t);
        assert(crate::text::string_views(out@) =~= b.push(sorted@[j as int]@));
        assert(crate::text::views(sorted@).subrange(0, j + 1) =~= crate::text::views(sorted@).subrange(0, j as int).push(sorted@[j as int]@));
        j = j + 1;
    }
    assert(crate::text::views(sorted@).subrange(0, sorted@.len() as int) =~= crate::text::views(sorted@));
    proof {
        let ov = crate::text::string_views(out@);
        assert(ov == crate::text::views(sorted@));
        assert(crate::text::sorted_texts(ov));
        let n = name_order(*tree, reference@);
        assert(crate::text::sorted_texts(n) && n.to_multiset() == matches_of(*tree, reference@).to_multiset());
        crate::text::lemma_sorted_unique(ov, n);
    }
    out
}

pub open spec fn entry_of(es: Seq<RoomEntry>, name: Seq<char>) -> int
    decreases es.len(),
{
    if es.len() == 0 {
        -1
    } else if es.last().name@ == name {
        es.len() - 1
    } else {
        entry_of(es.drop_last(), name)
    }
}

/// Where a register reference points, relative to the root: the one entry
/// carrying its number (a milestone directory's `README.md` when it has
/// one), when exactly one does and it exists.
pub open spec fn path_of(tree: RefTree, r: RefView) -> Option<Seq<char>> {
    let ms = matches_of(tree, r);
    if ms.len() != 1 {
        None
    } else {
        let k = room_index(tree.rooms@, r.room);
        let es = tree.rooms@[k].entries@;
        let e = es[entry_of(es, ms[0])];
        let rel = r.room + "/"@ + ms[0];
        if !e.is_dir {
            if e.exists { Some(rel) } else { None }
        } else if e.has_readme {
            Some(rel + "/README.md"@)
        } else {
            Some(rel)
        }
    }
}

proof fn lemma_entry_of(es: Seq<RoomEntry>, name: Seq<char>)
    ensures
        -1 <= entry_of(es, name) < es.len(),
        entry_of(es, name) >= 0 ==> es[entry_of(es, name)].name@ == name,
        numbered(es, name).len() >= 0,
    decreases es.len(),
{
    if es.len() > 0 && es.last().name@ != name {
        lemma_entry_of(es.drop_last(), name);
    }
}

proof fn lemma_numbered_in(es: Seq<RoomEntry>, number: Seq<char>, k: int)
    requires
        0 <= k < numbered(es, number).len(),
    ensures
        entry_of(es, numbered(es, number)[k]) >= 0,
    decreases es.len(),
{
    let n = numbered(es, number);
    if es.last().name@ == n[k] {
    } else {
        if names_number(es.last().name@, number) && k == n.len() - 1 {
        } else {
            lemma_numbered_in(es.drop_last(), number, k);
        }
    }
}

fn entry_of_exec(es: &Vec<RoomEntry>, name: &[char]) -> (r: Option<usize>)
    ensures
        match r {
            Some(k) => k as int == entry_of(es@, name@) && k < es@.len(),
            None => entry_of(es@, name@) == -1,
        },
{
    let mut i = es.len();
    assert(es@.subrange(0, i as int) =~= es@);
    while i > 0
        invariant
            i <= es@.len(),
            entry_of(es@, name@) == entry_of(es@.subrange(0, i as int), name@),
        decreases i,
    {
        let ghost sub = es@.subrange(0, i as int);
        assert(sub.drop_last() =~= es@.subrange(0, i - 1));
        assert(sub.last() == es@[i - 1]);
        if eq_chars(&chars_of(es[i - 1].name.as_str()), name) {
            return Some(i - 1);
        }
        i = i - 1;
    }
    None
}

/// Where a register reference points, relative to the root.
pub fn entry_path(tree: &RefTree, reference: &Reference) -> (r: Option<String>)
    ensures
        match path_of(*tree, reference@) {
            Some(p) => r is Some && r->0@ == p,
            None => r is None,
        },
{
    let found = numbered_names(tree, reference);
    if found.len() != 1 {
        return None;
    }
    let ghost ms = matches_of(*tree, reference@);
    assert(ms[0] == found@[0]@);
    let k = room_index_exec(&tree.rooms, &chars_of(reference.room.as_str())).unwrap();
    proof { lemma_room_index(tree.rooms@, reference@.room); }
    let es = &tree.rooms[k].entries;
    proof {
        lemma_numbered_in(es@, reference@.number, 0);
        lemma_entry_of(es@, ms[0]);
    }
    let ei = entry_of_exec(es, &found[0]).unwrap();
    let e = &es[ei];
    let mut rel = String::from_str(reference.room.as_str());
    rel.append("/");
    rel.append(string_of(&found[0]).as_str());
    if !e.is_dir {
        if e.exists { Some(rel) } else { None }
    } else if e.has_readme {
        rel.append("/README.md");
        Some(rel)
    } else {
        Some(rel)
    }
}

/// Whether this tree owns the room a register reference names.
pub open spec fn owns(tree: RefTree, r: RefView) -> bool {
    r.kind == RefKind::Register && room_index(tree.rooms@, r.room) >= 0
}

pub fn owns_room(tree: &RefTree, reference: &Reference) -> (b: bool)
    ensures
        b == owns(*tree, reference@),
{
    reference.kind == RefKind::Register && room_index_exec(&tree.rooms, &chars_of(reference.room.as_str())).is_some()
}

// ---------------------------------------------------------------------------
// The forge coordinates.
// ---------------------------------------------------------------------------

/// A suffix removed as often as it ends the text.
pub open spec fn strip_suffix_all(s: Seq<char>, p: Seq<char>) -> Seq<char>
    decreases s.len(),
{
    if p.len() > 0 && s.len() >= p.len() && s.subrange(s.len() - p.len(), s.len() as int) == p {
        strip_suffix_all(s.subrange(0, s.len() - p.len()), p)
    } else {
        s
    }
}

fn strip_suffix_all_exec(s: &[char], p: &[char]) -> (r: Vec<char>)
    ensures
        r@ == strip_suffix_all(s@, p@),
{
    let mut n = s.len();
    assert(s@.subrange(0, n as int) =~= s@);
    while p.len() > 0 && n >= p.len() && eq_chars(&slice(s, n - p.len(), n), p)
        invariant
            n <= s@.len(),
            strip_suffix_all(s@, p@) == strip_suffix_all(s@.subrange(0, n as int), p@),
        decreases n,
    {
        let ghost t = s@.subrange(0, n as int);
        assert(t.subrange(t.len() - p@.len(), t.len() as int) =~= s@.subrange(n - p@.len(), n as int));
        assert(t.subrange(0, t.len() - p@.len()) =~= s@.subrange(0, n - p@.len()));
        n = n - p.len();
    }
    proof {
        let t = s@.subrange(0, n as int);
        if p@.len() > 0 && n >= p@.len() {
            assert(t.subrange(t.len() - p@.len(), t.len() as int) =~= s@.subrange(n - p@.len(), n as int));
        }
    }
    slice(s, 0, n)
}

pub open spec fn ascii_lower_char(c: char) -> char {
    if 'A' <= c && c <= 'Z' { ((c as u32) + 32) as char } else { c }
}

/// `to_ascii_lowercase`.
pub open spec fn ascii_lower(s: Seq<char>) -> Seq<char> {
    s.map_values(|c: char| ascii_lower_char(c))
}

fn ascii_lower_exec(s: &[char]) -> (r: Vec<char>)
    ensures
        r@ == ascii_lower(s@),
{
    let mut out: Vec<char> = Vec::new();
    let mut i: usize = 0;
    while i < s.len()
        invariant
            i <= s@.len(),
            out@ == ascii_lower(s@.subrange(0, i as int)),
        decreases s.len() - i,
    {
        let c = s[i];
        let d = if 'A' <= c && c <= 'Z' { ((c as u8) + 32) as char } else { c };
        proof {
            if 'A' <= c && c <= 'Z' {
                assert((c as u8) as int == (c as u32) as int);
                assert(((c as u8) + 32) as char == ascii_lower_char(c));
            }
        }
        out.push(d);
        assert(out@ =~= ascii_lower(s@.subrange(0, i + 1)));
        i = i + 1;
    }
    assert(s@.subrange(0, s@.len() as int) =~= s@);
    out
}

/// The last position at or before `i` where `p` occurs, or `-1`.
pub open spec fn last_occ(s: Seq<char>, p: Seq<char>, i: int) -> int
    decreases i + 1,
{
    if i < 0 {
        -1
    } else if crate::text::occurs_at(s, p, i) {
        i
    } else {
        last_occ(s, p, i - 1)
    }
}

proof fn lemma_last_occ(s: Seq<char>, p: Seq<char>, i: int)
    ensures
        -1 <= last_occ(s, p, i),
        i >= 0 ==> last_occ(s, p, i) <= i,
        last_occ(s, p, i) >= 0 ==> crate::text::occurs_at(s, p, last_occ(s, p, i)),
    decreases i + 1,
{
    if i >= 0 && !crate::text::occurs_at(s, p, i) {
        lemma_last_occ(s, p, i - 1);
    }
}

fn rfind_exec(s: &[char], p: &[char]) -> (r: Option<usize>)
    ensures
        match r {
            Some(k) => k as int == last_occ(s@, p@, s@.len() - p@.len()) && k + p@.len() <= s@.len(),
            None => last_occ(s@, p@, s@.len() - p@.len()) == -1,
        },
{
    proof { lemma_last_occ(s@, p@, s@.len() - p@.len()); }
    if p.len() > s.len() {
        assert(last_occ(s@, p@, s@.len() - p@.len()) == -1);
        return None;
    }
    let mut i: usize = s.len() - p.len();
    loop
        invariant
            i <= s@.len() - p@.len(),
            last_occ(s@, p@, s@.len() - p@.len()) == last_occ(s@, p@, i as int),
        decreases i,
    {
        proof { lemma_last_occ(s@, p@, i as int); }
        if crate::text::occurs_at_exec(s, p, i) {
            return Some(i);
        }
        if i == 0 {
            assert(last_occ(s@, p@, -1) == -1);
            return None;
        }
        i = i - 1;
    }
}

/// Leading `:` and `/` removed.
pub open spec fn strip_colon_slash(s: Seq<char>) -> Seq<char>
    decreases s.len(),
{
    if s.len() > 0 && (s[0] == ':' || s[0] == '/') {
        strip_colon_slash(s.drop_first())
    } else {
        s
    }
}

fn strip_colon_slash_exec(s: &[char]) -> (r: Vec<char>)
    ensures
        r@ == strip_colon_slash(s@),
{
    let mut i: usize = 0;
    assert(s@.subrange(0, s@.len() as int) =~= s@);
    while i < s.len() && (s[i] == ':' || s[i] == '/')
        invariant
            i <= s@.len(),
            strip_colon_slash(s@) == strip_colon_slash(s@.subrange(i as int, s@.len() as int)),
        decreases s.len() - i,
    {
        assert(s@.subrange(i as int, s@.len() as int).drop_first() =~= s@.subrange(i + 1, s@.len() as int));
        i = i + 1;
    }
    slice(s, i, s.len())
}

/// A URL as the remote is written: trimmed, without trailing slashes and
/// `.git`.
pub open spec fn bare_url(u: Seq<char>) -> Seq<char> {
    strip_suffix_all(crate::text::trim_matches_end(trim(u), '/'), ".git"@)
}

fn bare_url_exec(u: &[char]) -> (r: Vec<char>)
    ensures
        r@ == bare_url(u@),
{
    let t = crate::text::trim_exec(u);
    let n = trim_end_matches_exec(&t, '/');
    strip_suffix_all_exec(&n, &chars_of(".git"))
}

fn trim_end_matches_exec(s: &[char], c: char) -> (r: Vec<char>)
    ensures
        r@ == crate::text::trim_matches_end(s@, c),
{
    let mut j: usize = s.len();
    assert(s@.subrange(0, s@.len() as int) =~= s@);
    while j > 0 && s[j - 1] == c
        invariant
            j <= s@.len(),
            crate::text::trim_matches_end(s@, c) == crate::text::trim_matches_end(s@.subrange(0, j as int), c),
        decreases j,
    {
        assert(s@.subrange(0, j as int).drop_last() =~= s@.subrange(0, j - 1));
        j = j - 1;
    }
    slice(s, 0, j)
}

/// The `owner/repo` a GitHub remote names, matched case-insensitively on
/// the host.
pub open spec fn slug_from_url(u: Seq<char>) -> Option<Seq<char>> {
    let url = bare_url(u);
    let at = last_occ(ascii_lower(url), "github.com"@, url.len() - 10);
    if at < 0 {
        None
    } else {
        let rest = strip_colon_slash(url.subrange(at + 10, url.len() as int));
        if count_char(rest, '/') == 1 { Some(rest) } else { None }
    }
}

pub open spec fn origin_slug_of(tree: RefTree) -> Option<Seq<char>> {
    match tree.origin_url {
        Some(u) => slug_from_url(u@),
        None => None,
    }
}

/// The repository's forge coordinates from the origin remote.
pub fn origin_slug(tree: &RefTree) -> (r: Option<String>)
    ensures
        match origin_slug_of(*tree) {
            Some(s) => r is Some && r->0@ == s,
            None => r is None,
        },
{
    let u = match &tree.origin_url {
        Some(u) => u,
        None => return None,
    };
    let url = bare_url_exec(&chars_of(u.as_str()));
    let lower = ascii_lower_exec(&url);
    let gh = chars_of("github.com");
    proof { reveal_strlit("github.com"); }
    assert(gh@.len() == 10);
    assert(lower@.len() == url@.len());
    let at = match rfind_exec(&lower, &gh) {
        Some(at) => at,
        None => return None,
    };
    let ul = url.len();
    assert(at + 10 <= ul);
    let rest = strip_colon_slash_exec(&slice(&url, at + 10, ul));
    if count_char_exec(&rest, '/') == 1 { Some(string_of(&rest)) } else { None }
}

/// The forge host the origin names: past any scheme and user, up to the
/// first `:` or `/`, lowercased, when it looks like a host.
pub open spec fn host_of_url(u: Seq<char>) -> Option<Seq<char>> {
    let t = trim(u);
    let after_scheme = match find_first(t, "://"@) {
        Some(p) => t.subrange(p + 3, t.len() as int),
        None => t,
    };
    let at = char_rpos(after_scheme, '@');
    let after_user = if at >= 0 { after_scheme.subrange(at + 1, after_scheme.len() as int) } else { after_scheme };
    let k = host_end(after_user, 0);
    let host = after_user.subrange(0, k);
    if host.len() > 0 && host.contains('.') { Some(ascii_lower(host)) } else { None }
}

/// The first position of `:` or `/` from `j` on, or the length.
pub open spec fn host_end(s: Seq<char>, j: int) -> int
    decreases s.len() - j,
{
    if 0 <= j < s.len() && s[j] != ':' && s[j] != '/' {
        host_end(s, j + 1)
    } else {
        j
    }
}

proof fn lemma_host_end(s: Seq<char>, j: int)
    requires
        0 <= j <= s.len(),
    ensures
        j <= host_end(s, j) <= s.len(),
    decreases s.len() - j,
{
    if j < s.len() && s[j] != ':' && s[j] != '/' {
        lemma_host_end(s, j + 1);
    }
}

pub open spec fn origin_host_of(tree: RefTree) -> Option<Seq<char>> {
    match tree.origin_url {
        Some(u) => host_of_url(u@),
        None => None,
    }
}

fn origin_host(tree: &RefTree) -> (r: Option<String>)
    ensures
        match origin_host_of(*tree) {
            Some(s) => r is Some && r->0@ == s,
            None => r is None,
        },
{
    let u = match &tree.origin_url {
        Some(u) => u,
        None => return None,
    };
    let t = crate::text::trim_exec(&chars_of(u.as_str()));
    let sep = chars_of("://");
    proof { reveal_strlit("://"); }
    let after_scheme = match crate::text::find(&t, &sep) {
        Some(p) => {
            proof { crate::text::lemma_find_first(t@, sep@, p as int); }
            let tl = t.len();
            assert(sep@.len() == 3);
            assert(p + 3 <= tl);
            slice(&t, p + 3, tl)
        },
        None => t,
    };
    proof { lemma_char_rpos(after_scheme@, '@'); }
    let after_user = match char_rpos_exec(&after_scheme, '@') {
        Some(at) => slice(&after_scheme, at + 1, after_scheme.len()),
        None => after_scheme,
    };
    let mut k: usize = 0;
    proof { lemma_host_end(after_user@, 0); }
    while k < after_user.len() && after_user[k] != ':' && after_user[k] != '/'
        invariant
            k <= after_user@.len(),
            host_end(after_user@, 0) == host_end(after_user@, k as int),
        decreases after_user.len() - k,
    {
        k = k + 1;
    }
    let host = slice(&after_user, 0, k);
    if host.len() > 0 && crate::text::contains_char(&host, '.') {
        Some(string_of(&ascii_lower_exec(&host)))
    } else {
        None
    }
}

/// The piece of a text after its last `/`.
pub open spec fn last_piece(s: Seq<char>) -> Seq<char> {
    s.subrange(char_rpos(s, '/') + 1, s.len() as int)
}

/// The default branch for a blob URL: the origin's head, else the local
/// head, and `main` only when neither answered with a name.
pub open spec fn branch_of(tree: RefTree) -> Seq<char> {
    let first = match tree.origin_head {
        Some(r) => Some(last_piece(trim(r@))),
        None => None,
    };
    let second = match first {
        Some(x) => Some(x),
        None => match tree.head {
            Some(h) => Some(trim(h@)),
            None => None,
        },
    };
    match second {
        Some(b) => if b.len() > 0 { b } else { "main"@ },
        None => "main"@,
    }
}

pub fn default_branch(tree: &RefTree) -> (r: String)
    ensures
        r@ == branch_of(*tree),
{
    let second: Option<Vec<char>> = match &tree.origin_head {
        Some(r) => {
            let t = crate::text::trim_exec(&chars_of(r.as_str()));
            proof { lemma_char_rpos(t@, '/'); }
            let n = t.len();
            let start = match char_rpos_exec(&t, '/') {
                Some(k) => {
                    assert(k < n);
                    k + 1
                },
                None => 0,
            };
            Some(slice(&t, start, t.len()))
        },
        None => match &tree.head {
            Some(h) => Some(crate::text::trim_exec(&chars_of(h.as_str()))),
            None => None,
        },
    };
    match second {
        Some(b) => if b.len() > 0 { string_of(&b) } else { String::from_str("main") },
        None => String::from_str("main"),
    }
}

/// The owner a `url = …` line records for a component, when its repository
/// name is the component's (ignoring ASCII case).
pub open spec fn owner_in_line(l: Seq<char>, component: Seq<char>) -> Option<Seq<char>> {
    let eq = char_pos(l, '=');
    if eq >= l.len() || trim(l.subrange(0, eq)) != "url"@ {
        None
    } else {
        let url = bare_url(l.subrange(eq + 1, l.len() as int));
        let sl = char_rpos(url, '/');
        if sl < 0 {
            None
        } else {
            let o = url.subrange(0, sl);
            let r = url.subrange(sl + 1, url.len() as int);
            let cut = owner_cut(o);
            if cut < 0 {
                None
            } else if ascii_lower(r) == ascii_lower(component) {
                Some(o.subrange(cut + 1, o.len() as int))
            } else {
                None
            }
        }
    }
}

/// The last `/` or `:` of a text, or `-1`.
pub open spec fn owner_cut(s: Seq<char>) -> int
    decreases s.len(),
{
    if s.len() == 0 {
        -1
    } else if s.last() == '/' || s.last() == ':' {
        s.len() - 1
    } else {
        owner_cut(s.drop_last())
    }
}

proof fn lemma_owner_cut(s: Seq<char>)
    ensures
        -1 <= owner_cut(s) < s.len(),
    decreases s.len(),
{
    if s.len() > 0 && !(s.last() == '/' || s.last() == ':') {
        lemma_owner_cut(s.drop_last());
    }
}

pub open spec fn owner_in_lines(ls: Seq<Seq<char>>, component: Seq<char>) -> Option<Seq<char>>
    decreases ls.len(),
{
    if ls.len() == 0 {
        None
    } else {
        match owner_in_line(ls[0], component) {
            Some(o) => Some(o),
            None => owner_in_lines(ls.drop_first(), component),
        }
    }
}

/// The owner this tree records for a component: the recipe first, then the
/// submodule list.
pub open spec fn recorded_owner_of(tree: RefTree, component: Seq<char>) -> Option<Seq<char>> {
    let a = match tree.recipe_text {
        Some(t) => owner_in_lines(lines(t@), component),
        None => None,
    };
    match a {
        Some(o) => Some(o),
        None => match tree.gitmodules_text {
            Some(t) => owner_in_lines(lines(t@), component),
            None => None,
        },
    }
}

fn owner_in_line_exec(l: &[char], component: &[char]) -> (r: Option<Vec<char>>)
    ensures
        match owner_in_line(l@, component@) {
            Some(o) => r is Some && r->0@ == o,
            None => r is None,
        },
{
    proof { reveal_strlit("url"); }
    let eq = char_pos_exec(l, '=');
    if eq >= l.len() || !eq_chars(&crate::text::trim_exec(&slice(l, 0, eq)), &chars_of("url")) {
        return None;
    }
    let url = bare_url_exec(&slice(l, eq + 1, l.len()));
    proof { lemma_char_rpos(url@, '/'); }
    let sl = match char_rpos_exec(&url, '/') {
        Some(k) => k,
        None => return None,
    };
    let o = slice(&url, 0, sl);
    let ul = url.len();
    assert(sl < ul);
    let r = slice(&url, sl + 1, ul);
    proof { lemma_owner_cut(o@); }
    let mut c = o.len();
    assert(o@.subrange(0, c as int) =~= o@);
    while c > 0 && o[c - 1] != '/' && o[c - 1] != ':'
        invariant
            c <= o@.len(),
            owner_cut(o@) == owner_cut(o@.subrange(0, c as int)),
        decreases c,
    {
        assert(o@.subrange(0, c as int).drop_last() =~= o@.subrange(0, c - 1));
        c = c - 1;
    }
    if c == 0 {
        assert(owner_cut(o@.subrange(0, 0)) == -1);
        return None;
    }
    assert(o@.subrange(0, c as int).last() == o@[c - 1]);
    if eq_chars(&ascii_lower_exec(&r), &ascii_lower_exec(component)) {
        Some(slice(&o, c, o.len()))
    } else {
        None
    }
}

fn owner_in_text(t: &str, component: &[char]) -> (r: Option<Vec<char>>)
    ensures
        match owner_in_lines(lines(t@), component@) {
            Some(o) => r is Some && r->0@ == o,
            None => r is None,
        },
{
    let ls = crate::text::lines_exec(&chars_of(t));
    let mut i: usize = 0;
    assert(crate::text::views(ls@).subrange(0, ls@.len() as int) =~= crate::text::views(ls@));
    while i < ls.len()
        invariant
            i <= ls@.len(),
            crate::text::views(ls@) == lines(t@),
            owner_in_lines(lines(t@), component@) == owner_in_lines(crate::text::views(ls@).subrange(i as int, ls@.len() as int), component@),
        decreases ls.len() - i,
    {
        let ghost sub = crate::text::views(ls@).subrange(i as int, ls@.len() as int);
        assert(sub[0] == ls@[i as int]@);
        assert(sub.drop_first() =~= crate::text::views(ls@).subrange(i + 1, ls@.len() as int));
        match owner_in_line_exec(&ls[i], component) {
            Some(o) => return Some(o),
            None => {},
        }
        i = i + 1;
    }
    None
}

pub fn recorded_owner(tree: &RefTree, component: &str) -> (r: Option<String>)
    ensures
        match recorded_owner_of(*tree, component@) {
            Some(o) => r is Some && r->0@ == o,
            None => r is None,
        },
{
    let c = chars_of(component);
    let a = match &tree.recipe_text {
        Some(t) => owner_in_text(t.as_str(), &c),
        None => None,
    };
    match a {
        Some(o) => Some(string_of(&o)),
        None => match &tree.gitmodules_text {
            Some(t) => match owner_in_text(t.as_str(), &c) {
                Some(o) => Some(string_of(&o)),
                None => None,
            },
            None => None,
        },
    }
}

/// The anchor GitHub generates for a heading carrying `{#anchor}`: the
/// whole heading line slugified, braces and all.
pub open spec fn slug_char(c: char) -> Option<char> {
    if is_alnum(c) {
        Some(c)
    } else if c == ' ' || c == '-' || c == '_' {
        Some('-')
    } else {
        None
    }
}

pub open spec fn slug_chars(s: Seq<char>) -> Seq<char>
    decreases s.len(),
{
    if s.len() == 0 {
        Seq::empty()
    } else {
        slug_chars(s.drop_last()) + match slug_char(s.last()) {
            Some(c) => seq![c],
            None => Seq::<char>::empty(),
        }
    }
}

/// The first heading line carrying the marker.
pub open spec fn marked_heading(ls: Seq<Seq<char>>, marker: Seq<char>) -> Option<Seq<char>>
    decreases ls.len(),
{
    if ls.len() == 0 {
        None
    } else {
        let l = ls[0];
        let ts = trim_start(l);
        if ts.len() > 0 && ts[0] == '#' && crate::text::contains(l, marker) {
            Some(l)
        } else {
            marked_heading(ls.drop_first(), marker)
        }
    }
}

pub open spec fn anchor_slug(text: Seq<char>, anchor: Seq<char>) -> Option<Seq<char>> {
    match marked_heading(lines(text), "{#"@ + anchor + "}"@) {
        Some(h) => {
            let title = trim(trim_matches_start(trim_start(h), '#'));
            let slug = crate::text::trim_matches(slug_chars(ascii_lower(title)), '-');
            if slug.len() > 0 { Some(slug) } else { None }
        },
        None => None,
    }
}

fn find_heading(ls: &Vec<Vec<char>>, mk: &Vec<char>) -> (r: Option<Vec<char>>)
    ensures
        match marked_heading(crate::text::views(ls@), mk@) {
            Some(h) => r is Some && r->0@ == h,
            None => r is None,
        },
{
    let mut i: usize = 0;
    assert(crate::text::views(ls@).subrange(0, ls@.len() as int) =~= crate::text::views(ls@));
    while i < ls.len()
        invariant
            i <= ls@.len(),
            marked_heading(crate::text::views(ls@), mk@) == marked_heading(crate::text::views(ls@).subrange(i as int, ls@.len() as int), mk@),
        decreases ls.len() - i,
    {
        let ghost sub = crate::text::views(ls@).subrange(i as int, ls@.len() as int);
        assert(sub[0] == ls@[i as int]@);
        assert(sub.drop_first() =~= crate::text::views(ls@).subrange(i + 1, ls@.len() as int));
        let l = &ls[i];
        let ti = crate::text::trim_start_index(l);
        let ts = slice(l, ti, l.len());
        if ts.len() > 0 && ts[0] == '#' && crate::text::contains_exec(l, mk) {
            let h = slice(l, 0, l.len());
            assert(h@ =~= l@);
            return Some(h);
        }
        i = i + 1;
    }
    None
}

pub fn github_anchor(text: &str, anchor: &str) -> (r: Option<String>)
    ensures
        match anchor_slug(text@, anchor@) {
            Some(s) => r is Some && r->0@ == s,
            None => r is None,
        },
{
    let mut marker = String::from_str("{#");
    marker.append(anchor);
    marker.append("}");
    let mk = chars_of(marker.as_str());
    let ls = crate::text::lines_exec(&chars_of(text));
    let h = match find_heading(&ls, &mk) {
        Some(h) => h,
        None => return None,
    };
    let hi = crate::text::trim_start_index(&h);
    let title = crate::text::trim_exec(&crate::text::trim_start_matches_exec(&slice(&h, hi, h.len()), '#'));
    let lower = ascii_lower_exec(&title);
    let mut sl: Vec<char> = Vec::new();
    let mut k: usize = 0;
    assert(lower@.subrange(0, 0) =~= Seq::<char>::empty());
    while k < lower.len()
        invariant
            k <= lower@.len(),
            sl@ == slug_chars(lower@.subrange(0, k as int)),
        decreases lower.len() - k,
    {
        let c = lower[k];
        assert(lower@.subrange(0, k + 1).drop_last() =~= lower@.subrange(0, k as int));
        if char_is_alnum(c) {
            sl.push(c);
        } else if c == ' ' || c == '-' || c == '_' {
            sl.push('-');
        }
        assert(sl@ =~= slug_chars(lower@.subrange(0, k + 1)));
        k = k + 1;
    }
    assert(lower@.subrange(0, lower@.len() as int) =~= lower@);
    let slug = crate::text::trim_matches_exec(&sl, '-');
    if slug.len() > 0 { Some(string_of(&slug)) } else { None }
}

// ---------------------------------------------------------------------------
// Resolution and emission.
// ---------------------------------------------------------------------------

/// What resolving a reference establishes: a register reference resolves
/// when its entry does; an issue when it names its repository, or names a
/// component whose owner the origin can give.
pub open spec fn resolution_spec(tree: RefTree, r: RefView) -> Resolution {
    match r.kind {
        RefKind::Register => if path_of(tree, r) is Some { Resolution::Resolved } else { Resolution::UnresolvedHere },
        RefKind::Issue => {
            let named = r.repo.contains('/');
            let owned = r.repo.len() > 0 && origin_slug_of(tree) is Some;
            if named || owned { Resolution::Resolved } else { Resolution::UnresolvedHere }
        },
    }
}

pub fn resolution_of(tree: &RefTree, reference: &Reference) -> (r: Resolution)
    ensures
        r == resolution_spec(*tree, reference@),
{
    match reference.kind {
        RefKind::Register => if entry_path(tree, reference).is_some() { Resolution::Resolved } else { Resolution::UnresolvedHere },
        RefKind::Issue => {
            let named = crate::text::contains_char(&chars_of(reference.repo.as_str()), '/');
            let owned = reference.repo.unicode_len() > 0 && origin_slug(tree).is_some();
            if named || owned { Resolution::Resolved } else { Resolution::UnresolvedHere }
        },
    }
}

/// The same question of a reference as written: text that is no reference
/// is malformed.
pub fn resolution(tree: &RefTree, text: &str) -> (r: Resolution)
    ensures
        r == match reference_of(text@) {
            Some(x) => resolution_spec(*tree, x),
            None => Resolution::Malformed,
        },
{
    match parse_reference(text) {
        Some(reference) => resolution_of(tree, &reference),
        None => Resolution::Malformed,
    }
}

/// Why a register reference did not resolve, in the terms of what the tree
/// holds: an ambiguity (naming the entries), a room this repository does not
/// hold, or a room that holds no such number.
pub open spec fn unresolved_text(tree: RefTree, r: RefView, names: Seq<Seq<char>>) -> Seq<char> {
    if names.len() > 1 {
        "ambiguous: "@ + r.room + "/"@ + r.number + " names "@ + padded(names.len(), 1) + " entries in "@ + r.room
            + "/ ("@ + crate::text::joined(names, ", "@)
            + "). Rename or remove one; a reference that resolves two ways resolves to neither"@
    } else if room_index(tree.rooms@, r.room) < 0 {
        "unresolved here: this repository holds no "@ + r.room + "/ room, so "@ + r.room + "/"@ + r.number
            + " names a register of its governing host and cannot be resolved from here"@
    } else {
        "unresolved here: "@ + r.room + "/ exists and holds no entry numbered "@ + r.number
    }
}

fn unresolved_reason(tree: &RefTree, reference: &Reference) -> (r: String)
    ensures
        r@ == unresolved_text(*tree, reference@, name_order(*tree, reference@)),
{
    let names = entry_matches(tree, reference);
    proof {
        broadcast use vstd::seq_lib::group_to_multiset_ensures;
    }
    let ghost nv = crate::text::string_views(names@);
    if names.len() > 1 {
        let mut s = String::from_str("ambiguous: ");
        s.append(reference.room.as_str());
        s.append("/");
        s.append(reference.number.as_str());
        s.append(" names ");
        let n = decimal_text(names.len() as u64);
        s.append(n.as_str());
        s.append(" entries in ");
        s.append(reference.room.as_str());
        s.append("/ (");
        let j = crate::text::join_texts(&names, ", ");
        s.append(j.as_str());
        s.append("). Rename or remove one; a reference that resolves two ways resolves to neither");
        assert(s@ == unresolved_text(*tree, reference@, nv));
        return s;
    }
    if room_index_exec(&tree.rooms, &chars_of(reference.room.as_str())).is_none() {
        let mut s = String::from_str("unresolved here: this repository holds no ");
        s.append(reference.room.as_str());
        s.append("/ room, so ");
        s.append(reference.room.as_str());
        s.append("/");
        s.append(reference.number.as_str());
        s.append(" names a register of its governing host and cannot be resolved from here");
        assert(s@ == unresolved_text(*tree, reference@, nv));
        return s;
    }
    let mut s = String::from_str("unresolved here: ");
    s.append(reference.room.as_str());
    s.append("/ exists and holds no entry numbered ");
    s.append(reference.number.as_str());
    assert(s@ == unresolved_text(*tree, reference@, nv));
    s
}

pub open spec fn anchor_suffix(a: Option<Seq<char>>) -> Seq<char> {
    match a {
        Some(x) => "#"@ + x,
        None => Seq::empty(),
    }
}

/// A relative path as the forge writes it: backslashes as slashes.
pub open spec fn slashed(p: Seq<char>) -> Seq<char> {
    p.map_values(|c: char| if c == '\\' { '/' } else { c })
}

/// What an issue reference emits; an issue is never a path.
pub open spec fn emit_issue(tree: RefTree, r: RefView, e: Emission) -> Result<Seq<char>, Seq<char>> {
    if e == Emission::Path {
        Err("#"@ + r.number + " names work in a forge, not a path"@)
    } else if r.repo.len() == 0 {
        Err("#"@ + r.number + " names no repository. Write it as owner/repo#"@ + r.number + " (or component#"@ + r.number
            + ") so the link is unambiguous"@)
    } else {
        let owner = match recorded_owner_of(tree, r.repo) {
            Some(o) => Some(o),
            None => match origin_slug_of(tree) {
                Some(sl) => Some(sl.subrange(0, char_pos(sl, '/'))),
                None => None,
            },
        };
        let slug = if r.repo.contains('/') { Some(r.repo) } else {
            match owner {
                Some(o) => Some(o + "/"@ + r.repo),
                None => None,
            }
        };
        match slug {
            None => Err("nothing here records an owner for `"@ + r.repo
                + "`, and there is no github origin to take one from; write owner/repo#"@ + r.number),
            Some(sl) => {
                let host = match origin_host_of(tree) {
                    Some(h) => h,
                    None => "github.com"@,
                };
                if e == Emission::FullUrl {
                    Ok("https://"@ + host + "/"@ + sl + "/issues/"@ + r.number)
                } else {
                    Ok("["@ + sl + "#"@ + r.number + "](https://"@ + host + "/"@ + sl + "/issues/"@ + r.number + ")"@)
                }
            },
        }
    }
}

/// What a register reference emits; `entry_text` is the text of the entry
/// it resolves to, when it could be read.
pub open spec fn emit_register(tree: RefTree, r: RefView, e: Emission, entry_text: Option<Seq<char>>) -> Result<Seq<char>, Seq<char>> {
    match path_of(tree, r) {
        None => Err(unresolved_text(tree, r, name_order(tree, r))),
        Some(p) => {
            let rel = slashed(p);
            let a = anchor_suffix(r.anchor);
            if e == Emission::Path {
                Ok(rel + a)
            } else if e == Emission::MarkdownLink {
                Ok("["@ + r.room + "/"@ + r.number + a + "]("@ + rel + a + ")"@)
            } else {
                match origin_slug_of(tree) {
                    None => Err("no github origin remote, so a URL cannot be built"@),
                    Some(sl) => {
                        let fragment = match (r.anchor, entry_text) {
                            (Some(an), Some(t)) => match anchor_slug(t, an) {
                                Some(x) => "#"@ + x,
                                None => Seq::empty(),
                            },
                            _ => Seq::empty(),
                        };
                        Ok("https://github.com/"@ + sl + "/blob/"@ + branch_of(tree) + "/"@ + rel + fragment)
                    },
                }
            }
        },
    }
}

pub open spec fn emit_spec(tree: RefTree, r: RefView, e: Emission, entry_text: Option<Seq<char>>) -> Result<Seq<char>, Seq<char>> {
    match r.kind {
        RefKind::Issue => emit_issue(tree, r, e),
        RefKind::Register => emit_register(tree, r, e, entry_text),
    }
}

fn slashed_exec(p: &[char]) -> (r: Vec<char>)
    ensures
        r@ == slashed(p@),
{
    let mut out: Vec<char> = Vec::new();
    let mut i: usize = 0;
    while i < p.len()
        invariant
            i <= p@.len(),
            out@ == slashed(p@.subrange(0, i as int)),
        decreases p.len() - i,
    {
        out.push(if p[i] == '\\' { '/' } else { p[i] });
        assert(out@ =~= slashed(p@.subrange(0, i + 1)));
        i = i + 1;
    }
    assert(p@.subrange(0, p@.len() as int) =~= p@);
    out
}

fn emit_issue_exec(tree: &RefTree, reference: &Reference, emission: Emission) -> (r: Result<String, String>)
    requires
        reference.kind == RefKind::Issue,
    ensures
        match emit_issue(*tree, reference@, emission) {
            Ok(t) => r is Ok && r->Ok_0@ == t,
            Err(t) => r is Err && r->Err_0@ == t,
        },
{
    let n = reference.number.as_str();
    if emission == Emission::Path {
        let mut e = String::from_str("#");
        e.append(n);
        e.append(" names work in a forge, not a path");
        return Err(e);
    }
    if reference.repo.unicode_len() == 0 {
        let mut e = String::from_str("#");
        e.append(n);
        e.append(" names no repository. Write it as owner/repo#");
        e.append(n);
        e.append(" (or component#");
        e.append(n);
        e.append(") so the link is unambiguous");
        return Err(e);
    }
    let repo = reference.repo.as_str();
    let slug = if crate::text::contains_char(&chars_of(repo), '/') {
        String::from_str(repo)
    } else {
        let owner: Option<String> = match recorded_owner(tree, repo) {
            Some(o) => Some(o),
            None => match origin_slug(tree) {
                Some(sl) => {
                    let c = chars_of(sl.as_str());
                    let k = char_pos_exec(&c, '/');
                    Some(string_of(&slice(&c, 0, k)))
                },
                None => None,
            },
        };
        match owner {
            Some(o) => {
                let mut s = o;
                s.append("/");
                s.append(repo);
                s
            },
            None => {
                let mut e = String::from_str("nothing here records an owner for `");
                e.append(repo);
                e.append("`, and there is no github origin to take one from; write owner/repo#");
                e.append(n);
                return Err(e);
            },
        }
    };
    let host = match origin_host(tree) {
        Some(h) => h,
        None => String::from_str("github.com"),
    };
    if emission == Emission::FullUrl {
        let mut s = String::from_str("https://");
        s.append(host.as_str());
        s.append("/");
        s.append(slug.as_str());
        s.append("/issues/");
        s.append(n);
        Ok(s)
    } else {
        let mut s = String::from_str("[");
        s.append(slug.as_str());
        s.append("#");
        s.append(n);
        s.append("](https://");
        s.append(host.as_str());
        s.append("/");
        s.append(slug.as_str());
        s.append("/issues/");
        s.append(n);
        s.append(")");
        Ok(s)
    }
}

/// What a resolution prints, in the form asked for. `entry_text` is the
/// text of the entry a register reference resolves to, for the anchor a
/// forge URL carries; `None` when it could not be read.
pub fn emit(tree: &RefTree, reference: &Reference, emission: Emission, entry_text: Option<&str>) -> (r: Result<String, String>)
    ensures
        match emit_spec(*tree, reference@, emission, match entry_text { Some(t) => Some(t@), None => None }) {
            Ok(t) => r is Ok && r->Ok_0@ == t,
            Err(t) => r is Err && r->Err_0@ == t,
        },
{
    if reference.kind == RefKind::Issue {
        return emit_issue_exec(tree, reference, emission);
    }
    let p = match entry_path(tree, reference) {
        Some(p) => p,
        None => {
            let e = unresolved_reason(tree, reference);
            return Err(e);
        },
    };
    let rel = string_of(&slashed_exec(&chars_of(p.as_str())));
    let mut a = String::new();
    match &reference.anchor {
        Some(x) => {
            a.append("#");
            a.append(x.as_str());
        },
        None => {},
    }
    if emission == Emission::Path {
        let mut s = rel;
        s.append(a.as_str());
        return Ok(s);
    }
    if emission == Emission::MarkdownLink {
        let mut s = String::from_str("[");
        s.append(reference.room.as_str());
        s.append("/");
        s.append(reference.number.as_str());
        s.append(a.as_str());
        s.append("](");
        s.append(rel.as_str());
        s.append(a.as_str());
        s.append(")");
        return Ok(s);
    }
    let sl = match origin_slug(tree) {
        Some(sl) => sl,
        None => return Err(String::from_str("no github origin remote, so a URL cannot be built")),
    };
    let mut fragment = String::new();
    match (&reference.anchor, entry_text) {
        (Some(an), Some(t)) => match github_anchor(t, an.as_str()) {
            Some(x) => {
                fragment.append("#");
                fragment.append(x.as_str());
            },
            None => {},
        },
        _ => {},
    }
    let mut s = String::from_str("https://github.com/");
    s.append(sl.as_str());
    s.append("/blob/");
    let b = default_branch(tree);
    s.append(b.as_str());
    s.append("/");
    s.append(rel.as_str());
    s.append(fragment.as_str());
    Ok(s)
}

// ---------------------------------------------------------------------------
// Sweeping a document.
// ---------------------------------------------------------------------------

/// One reported reference.
#[derive(Debug, Clone, PartialEq, Eq)]
pub struct Finding {
    pub file: String,
    pub line: usize,
    pub text: String,
    pub weight: Weight,
}

pub struct RefFindingView {
    pub file: Seq<char>,
    pub line: int,
    pub text: Seq<char>,
    pub weight: Weight,
}

impl View for Finding {
    type V = RefFindingView;

    open spec fn view(&self) -> RefFindingView {
        RefFindingView { file: self.file@, line: self.line as int, text: self.text@, weight: self.weight }
    }
}

pub open spec fn ref_finding_views(v: Seq<Finding>) -> Seq<RefFindingView> {
    v.map_values(|f: Finding| f@)
}

/// What a scanned reference reports, if anything: a register reference into
/// a room this tree owns that does not resolve is a dead pointer; an issue
/// written outside a link is unrendered.
pub open spec fn report_of(tree: RefTree, x: ScannedView) -> Option<(Seq<char>, Weight)> {
    let r = x.reference;
    match r.kind {
        RefKind::Register => if owns(tree, r) && resolution_spec(tree, r) == Resolution::UnresolvedHere {
            Some((r.room + "/"@ + r.number, Weight::DeadPointer))
        } else {
            None
        },
        RefKind::Issue => if !x.in_link {
            Some((r.repo + "#"@ + r.number, Weight::Unrendered))
        } else {
            None
        },
    }
}

/// A finding joins the report unless one with the same line and text is
/// already in it.
pub open spec fn add_report(out: Seq<RefFindingView>, file: Seq<char>, n: int, c: Option<(Seq<char>, Weight)>) -> Seq<RefFindingView> {
    match c {
        None => out,
        Some((t, w)) => if exists|k: int| 0 <= k < out.len() && (#[trigger] out[k]).line == n && out[k].text == t {
            out
        } else {
            out.push(RefFindingView { file, line: n, text: t, weight: w })
        },
    }
}

pub open spec fn line_reports(
    out: Seq<RefFindingView>,
    tree: RefTree,
    file: Seq<char>,
    n: int,
    refs: Seq<ScannedView>,
) -> Seq<RefFindingView>
    decreases refs.len(),
{
    if refs.len() == 0 {
        out
    } else {
        add_report(line_reports(out, tree, file, n, refs.drop_last()), file, n, report_of(tree, refs.last()))
    }
}

pub open spec fn doc_reports(tree: RefTree, file: Seq<char>, ls: Seq<(int, Seq<char>)>) -> Seq<RefFindingView>
    decreases ls.len(),
{
    if ls.len() == 0 {
        Seq::empty()
    } else {
        line_reports(doc_reports(tree, file, ls.drop_last()), tree, file, ls.last().0, line_refs(ls.last().1))
    }
}

fn report_of_exec(tree: &RefTree, x: &Scanned) -> (r: Option<(String, Weight)>)
    ensures
        match report_of(*tree, x@) {
            Some((t, w)) => match r {
                Some((u, v)) => u@ == t && v == w,
                None => false,
            },
            None => r is None,
        },
{
    let r = &x.reference;
    match r.kind {
        RefKind::Register => {
            if owns_room(tree, r) && resolution_of(tree, r) == Resolution::UnresolvedHere {
                let mut t = String::from_str(r.room.as_str());
                t.append("/");
                t.append(r.number.as_str());
                Some((t, Weight::DeadPointer))
            } else {
                None
            }
        },
        RefKind::Issue => {
            if !x.in_link {
                let mut t = String::from_str(r.repo.as_str());
                t.append("#");
                t.append(r.number.as_str());
                Some((t, Weight::Unrendered))
            } else {
                None
            }
        },
    }
}

fn already_reported(out: &Vec<Finding>, n: usize, t: &String) -> (b: bool)
    ensures
        b == exists|k: int|
            0 <= k < out@.len() && (#[trigger] ref_finding_views(out@)[k]).line == n as int
                && ref_finding_views(out@)[k].text == t@,
{
    let tc = chars_of(t.as_str());
    let ghost ov = ref_finding_views(out@);
    let mut k: usize = 0;
    while k < out.len()
        invariant
            k <= out@.len(),
            ov == ref_finding_views(out@),
            tc@ == t@,
            forall|q: int| 0 <= q < k ==> !((#[trigger] ov[q]).line == n as int && ov[q].text == t@),
        decreases out.len() - k,
    {
        assert(ov[k as int] == out@[k as int]@);
        if out[k].line == n && eq_chars(&chars_of(out[k].text.as_str()), &tc) {
            assert(ov[k as int].line == n as int && ov[k as int].text == t@);
            return true;
        }
        k = k + 1;
    }
    false
}

fn add_report_exec(out: &mut Vec<Finding>, file: &str, n: usize, c: Option<(String, Weight)>)
    ensures
        ref_finding_views(final(out)@) == add_report(
            ref_finding_views(old(out)@),
            file@,
            n as int,
            match c {
                Some((t, w)) => Some((t@, w)),
                None => None,
            },
        ),
{
    match c {
        Some((t, w)) => {
            if !already_reported(out, n, &t) {
                let ghost ov = ref_finding_views(out@);
                let f = Finding { file: String::from_str(file), line: n, text: t, weight: w };
                let ghost fv = f@;
                out.push(f);
                assert(ref_finding_views(out@) =~= ov.push(fv));
            }
        },
        None => {},
    }
}

/// Sweep one document: every reference a reader cannot follow, once per
/// line and text.
pub fn scan_document(text: &str, file: &str, tree: &RefTree) -> (out: Vec<Finding>)
    ensures
        ref_finding_views(out@) == doc_reports(*tree, file@, prose(text@)),
{
    let ls = prose_of(text);
    let ghost pv = prose(text@);
    let mut out: Vec<Finding> = Vec::new();
    let mut i: usize = 0;
    assert(ref_finding_views(out@) =~= doc_reports(*tree, file@, pv.subrange(0, 0)));
    while i < ls.len()
        invariant
            i <= ls@.len(),
            pv == prose(text@),
            ls@.len() == pv.len(),
            forall|k: int| 0 <= k < ls@.len() ==> (#[trigger] ls@[k]).0 as int == pv[k].0 && ls@[k].1@ == pv[k].1,
            ref_finding_views(out@) == doc_reports(*tree, file@, pv.subrange(0, i as int)),
        decreases ls.len() - i,
    {
        let n = ls[i].0;
        let refs = scan_line(&chars_of(ls[i].1.as_str()));
        let ghost start = ref_finding_views(out@);
        let ghost rv = scanned_views(refs@);
        let mut j: usize = 0;
        assert(rv.subrange(0, 0) =~= Seq::<ScannedView>::empty());
        while j < refs.len()
            invariant
                j <= refs@.len(),
                rv == scanned_views(refs@),
                ref_finding_views(out@) == line_reports(start, *tree, file@, n as int, rv.subrange(0, j as int)),
            decreases refs.len() - j,
        {
            let ghost sub = rv.subrange(0, j + 1);
            assert(sub.drop_last() =~= rv.subrange(0, j as int));
            assert(sub.last() == refs@[j as int]@);
            let c = report_of_exec(tree, &refs[j]);
            add_report_exec(&mut out, file, n, c);
            j = j + 1;
        }
        assert(rv.subrange(0, rv.len() as int) =~= rv);
        let ghost sub = pv.subrange(0, i + 1);
        assert(sub.drop_last() =~= pv.subrange(0, i as int));
        assert(sub.last() == pv[i as int]);
        i = i + 1;
    }
    assert(pv.subrange(0, pv.len() as int) =~= pv);
    out
}

/// Register references naming a room this tree does not hold: somebody
/// else's registers, counted rather than reported.
pub open spec fn unowned_in_line(tree: RefTree, refs: Seq<ScannedView>) -> nat
    decreases refs.len(),
{
    if refs.len() == 0 {
        0
    } else {
        unowned_in_line(tree, refs.drop_last()) + if refs.last().reference.kind == RefKind::Register && !owns(
            tree,
            refs.last().reference,
        ) {
            1nat
        } else {
            0nat
        }
    }
}

pub open spec fn unowned_in_doc(tree: RefTree, ls: Seq<(int, Seq<char>)>) -> nat
    decreases ls.len(),
{
    if ls.len() == 0 {
        0
    } else {
        unowned_in_doc(tree, ls.drop_last()) + unowned_in_line(tree, line_refs(ls.last().1))
    }
}

pub open spec fn sat(n: nat) -> u64 {
    if n > u64::MAX { u64::MAX } else { n as u64 }
}

/// Register references naming a room this tree does not hold (saturating
/// at the largest `u64`).
pub fn count_unowned_registers(text: &str, tree: &RefTree) -> (n: u64)
    ensures
        n == sat(unowned_in_doc(*tree, prose(text@))),
{
    let ls = prose_of(text);
    let ghost pv = prose(text@);
    let mut n: u64 = 0;
    let mut i: usize = 0;
    while i < ls.len()
        invariant
            i <= ls@.len(),
            pv == prose(text@),
            ls@.len() == pv.len(),
            forall|k: int| 0 <= k < ls@.len() ==> (#[trigger] ls@[k]).0 as int == pv[k].0 && ls@[k].1@ == pv[k].1,
            n == sat(unowned_in_doc(*tree, pv.subrange(0, i as int))),
        decreases ls.len() - i,
    {
        let refs = scan_line(&chars_of(ls[i].1.as_str()));
        let ghost rv = scanned_views(refs@);
        let ghost base = unowned_in_doc(*tree, pv.subrange(0, i as int));
        let mut j: usize = 0;
        assert(rv.subrange(0, 0) =~= Seq::<ScannedView>::empty());
        while j < refs.len()
            invariant
                j <= refs@.len(),
                rv == scanned_views(refs@),
                n == sat(base + unowned_in_line(*tree, rv.subrange(0, j as int))),
            decreases refs.len() - j,
        {
            let ghost sub = rv.subrange(0, j + 1);
            assert(sub.drop_last() =~= rv.subrange(0, j as int));
            assert(sub.last() == refs@[j as int]@);
            if refs[j].reference.kind == RefKind::Register && !owns_room(tree, &refs[j].reference) {
                n = n.saturating_add(1);
            }
            j = j + 1;
        }
        assert(rv.subrange(0, rv.len() as int) =~= rv);
        let ghost sub = pv.subrange(0, i + 1);
        assert(sub.drop_last() =~= pv.subrange(0, i as int));
        assert(sub.last() == pv[i as int]);
        assert(ls@[i as int].1@ == pv[i as int].1);
        i = i + 1;
    }
    assert(pv.subrange(0, pv.len() as int) =~= pv);
    n
}


/// One document the walk listed: its repo-relative name, and its text when
/// it could be read.
pub struct DocRead {
    pub name: String,
    pub text: Option<String>,
}

pub type DocView = (Seq<char>, Option<Seq<char>>);

pub open spec fn doc_views(v: Seq<DocRead>) -> Seq<DocView> {
    v.map_values(|d: DocRead| (d.name@, opt_text_of(d.text)))
}

pub open spec fn opt_text_of(o: Option<String>) -> Option<Seq<char>> {
    match o {
        Some(s) => Some(s@),
        None => None,
    }
}

/// Every report of the readable documents, in order.
pub open spec fn sweep_findings(tree: RefTree, ds: Seq<DocView>) -> Seq<RefFindingView>
    decreases ds.len(),
{
    if ds.len() == 0 {
        Seq::empty()
    } else {
        sweep_findings(tree, ds.drop_last()) + match ds.last().1 {
            Some(t) => doc_reports(tree, ds.last().0, prose(t)),
            None => Seq::empty(),
        }
    }
}

/// The documents that could not be read, in order.
pub open spec fn unread_names(ds: Seq<DocView>) -> Seq<Seq<char>>
    decreases ds.len(),
{
    if ds.len() == 0 {
        Seq::empty()
    } else {
        unread_names(ds.drop_last()) + match ds.last().1 {
            Some(_) => Seq::empty(),
            None => seq![ds.last().0],
        }
    }
}

/// Register references into rooms this tree does not hold, over the
/// readable documents.
pub open spec fn unowned_total(tree: RefTree, ds: Seq<DocView>) -> nat
    decreases ds.len(),
{
    if ds.len() == 0 {
        0
    } else {
        unowned_total(tree, ds.drop_last()) + match ds.last().1 {
            Some(t) => unowned_in_doc(tree, prose(t)),
            None => 0,
        }
    }
}

/// What a sweep of the listed documents found.
pub struct Sweep {
    pub findings: Vec<Finding>,
    pub unread: Vec<String>,
    pub unchecked: u64,
}

/// Sweep every listed document: a document that could not be read is a
/// hole in the corpus, reported rather than skipped.
pub fn sweep(docs: &Vec<DocRead>, tree: &RefTree) -> (s: Sweep)
    ensures
        ref_finding_views(s.findings@) == sweep_findings(*tree, doc_views(docs@)),
        string_views(s.unread@) == unread_names(doc_views(docs@)),
        s.unchecked == sat(unowned_total(*tree, doc_views(docs@))),
{
    let ghost dv = doc_views(docs@);
    let mut findings: Vec<Finding> = Vec::new();
    let mut unread: Vec<String> = Vec::new();
    let mut unchecked: u64 = 0;
    let mut i: usize = 0;
    assert(ref_finding_views(findings@) =~= sweep_findings(*tree, dv.subrange(0, 0)));
    assert(string_views(unread@) =~= unread_names(dv.subrange(0, 0)));
    while i < docs.len()
        invariant
            i <= docs@.len(),
            dv == doc_views(docs@),
            ref_finding_views(findings@) == sweep_findings(*tree, dv.subrange(0, i as int)),
            string_views(unread@) == unread_names(dv.subrange(0, i as int)),
            unchecked == sat(unowned_total(*tree, dv.subrange(0, i as int))),
        decreases docs.len() - i,
    {
        let ghost sub = dv.subrange(0, i + 1);
        assert(sub.drop_last() =~= dv.subrange(0, i as int));
        assert(sub.last() == (docs@[i as int].name@, opt_text_of(docs@[i as int].text)));
        let ghost before = unowned_total(*tree, dv.subrange(0, i as int));
        match &docs[i].text {
            Some(t) => {
                let n = count_unowned_registers(t.as_str(), tree);
                unchecked = unchecked.saturating_add(n);
                let found = scan_document(t.as_str(), docs[i].name.as_str(), tree);
                let ghost f0 = ref_finding_views(findings@);
                let ghost fv = ref_finding_views(found@);
                let mut j: usize = 0;
                while j < found.len()
                    invariant
                        j <= found@.len(),
                        fv == ref_finding_views(found@),
                        ref_finding_views(findings@) == f0 + fv.subrange(0, j as int),
                    decreases found.len() - j,
                {
                    let ghost b = ref_finding_views(findings@);
                    let f = Finding {
                        file: found[j].file.clone(),
                        line: found[j].line,
                        text: found[j].text.clone(),
                        weight: found[j].weight,
                    };
                    findings.push(f);
                    assert(ref_finding_views(findings@) =~= b.push(fv[j as int]));
                    assert(ref_finding_views(findings@) =~= f0 + fv.subrange(0, j + 1));
                    j = j + 1;
                }
                assert(fv.subrange(0, fv.len() as int) =~= fv);
            },
            None => {
                let ghost u0 = string_views(unread@);
                unread.push(docs[i].name.clone());
                assert(string_views(unread@) =~= u0.push(docs@[i as int].name@));
            },
        }
        assert(ref_finding_views(findings@) =~= sweep_findings(*tree, sub));
        assert(string_views(unread@) =~= unread_names(sub));
        i = i + 1;
    }
    assert(dv.subrange(0, dv.len() as int) =~= dv);
    Sweep { findings, unread, unchecked }
}


/// The findings of one weight, in order.
pub open spec fn of_weight(fs: Seq<RefFindingView>, w: Weight) -> Seq<RefFindingView>
    decreases fs.len(),
{
    if fs.len() == 0 {
        Seq::empty()
    } else {
        of_weight(fs.drop_last(), w) + if fs.last().weight == w {
            seq![fs.last()]
        } else {
            Seq::empty()
        }
    }
}

fn weight_of(fs: &Vec<Finding>, w: Weight) -> (out: Vec<Finding>)
    ensures
        ref_finding_views(out@) == of_weight(ref_finding_views(fs@), w),
{
    let ghost fv = ref_finding_views(fs@);
    let mut out: Vec<Finding> = Vec::new();
    let mut i: usize = 0;
    assert(ref_finding_views(out@) =~= of_weight(fv.subrange(0, 0), w));
    while i < fs.len()
        invariant
            i <= fs@.len(),
            fv == ref_finding_views(fs@),
            ref_finding_views(out@) == of_weight(fv.subrange(0, i as int), w),
        decreases fs.len() - i,
    {
        let ghost sub = fv.subrange(0, i + 1);
        assert(sub.drop_last() =~= fv.subrange(0, i as int));
        assert(sub.last() == fs@[i as int]@);
        if fs[i].weight == w {
            let ghost b = ref_finding_views(out@);
            out.push(Finding { file: fs[i].file.clone(), line: fs[i].line, text: fs[i].text.clone(), weight: fs[i].weight });
            assert(ref_finding_views(out@) =~= b.push(fv[i as int]));
        }
        i = i + 1;
    }
    assert(fv.subrange(0, fv.len() as int) =~= fv);
    out
}

/// The position of a file in a tally, or `-1`.
pub open spec fn tally_pos(t: Seq<(Seq<char>, nat)>, f: Seq<char>) -> int
    decreases t.len(),
{
    if t.len() == 0 {
        -1
    } else if t.last().0 == f {
        t.len() - 1
    } else {
        tally_pos(t.drop_last(), f)
    }
}

proof fn lemma_tally_pos(t: Seq<(Seq<char>, nat)>, f: Seq<char>)
    ensures
        -1 <= tally_pos(t, f) < t.len(),
        tally_pos(t, f) >= 0 ==> t[tally_pos(t, f)].0 == f,
        tally_pos(t, f) == -1 ==> forall|k: int| 0 <= k < t.len() ==> (#[trigger] t[k]).0 != f,
    decreases t.len(),
{
    if t.len() > 0 && t.last().0 != f {
        lemma_tally_pos(t.drop_last(), f);
        if tally_pos(t, f) == -1 {
            assert forall|k: int| 0 <= k < t.len() implies (#[trigger] t[k]).0 != f by {
                if k < t.len() - 1 {
                    assert(t[k] == t.drop_last()[k]);
                }
            }
        }
    }
}

/// Count one more finding in a file.
pub open spec fn bump(t: Seq<(Seq<char>, nat)>, f: Seq<char>) -> Seq<(Seq<char>, nat)> {
    let k = tally_pos(t, f);
    if k >= 0 {
        t.update(k, (f, t[k].1 + 1))
    } else {
        t.push((f, 1))
    }
}

/// Findings counted per file, files in the order they first appear.
pub open spec fn tally(fs: Seq<RefFindingView>) -> Seq<(Seq<char>, nat)>
    decreases fs.len(),
{
    if fs.len() == 0 {
        Seq::empty()
    } else {
        bump(tally(fs.drop_last()), fs.last().file)
    }
}

/// Insert a count after every count at least as large (a stable insertion).
pub open spec fn ins_desc(s: Seq<(Seq<char>, nat)>, x: (Seq<char>, nat)) -> Seq<(Seq<char>, nat)>
    decreases s.len(),
{
    if s.len() == 0 {
        seq![x]
    } else if s.last().1 >= x.1 {
        s.push(x)
    } else {
        ins_desc(s.drop_last(), x).push(s.last())
    }
}

/// Counts ordered largest first, ties in the order they came.
pub open spec fn sort_desc(s: Seq<(Seq<char>, nat)>) -> Seq<(Seq<char>, nat)>
    decreases s.len(),
{
    if s.len() == 0 {
        Seq::empty()
    } else {
        ins_desc(sort_desc(s.drop_last()), s.last())
    }
}

pub open spec fn count_views(v: Seq<(String, usize)>) -> Seq<(Seq<char>, nat)> {
    v.map_values(|x: (String, usize)| (x.0@, x.1 as nat))
}

fn tally_exec(fs: &Vec<Finding>) -> (out: Vec<(String, usize)>)
    ensures
        count_views(out@) == tally(ref_finding_views(fs@)),
{
    let ghost fv = ref_finding_views(fs@);
    let mut out: Vec<(String, usize)> = Vec::new();
    let mut i: usize = 0;
    assert(count_views(out@) =~= tally(fv.subrange(0, 0)));
    while i < fs.len()
        invariant
            i <= fs@.len(),
            fv == ref_finding_views(fs@),
            count_views(out@) == tally(fv.subrange(0, i as int)),
            forall|k: int| 0 <= k < out@.len() ==> (#[trigger] out@[k]).1 <= i,
        decreases fs.len() - i,
    {
        let ghost sub = fv.subrange(0, i + 1);
        assert(sub.drop_last() =~= fv.subrange(0, i as int));
        assert(sub.last() == fs@[i as int]@);
        let ghost t = count_views(out@);
        proof { lemma_tally_pos(t, fs@[i as int].file@); }
        let fc = chars_of(fs[i].file.as_str());
        let mut k: usize = out.len();
        assert(t.subrange(0, k as int) =~= t);
        while k > 0
            invariant
                k <= out@.len(),
                t == count_views(out@),
                fc@ == fs@[i as int].file@,
                tally_pos(t, fc@) == tally_pos(t.subrange(0, k as int), fc@),
            ensures
                k <= out@.len(),
                tally_pos(t, fc@) == tally_pos(t.subrange(0, k as int), fc@),
                k == 0 || t[k - 1].0 == fc@,
            decreases k,
        {
            let ghost s2 = t.subrange(0, k as int);
            assert(s2.drop_last() =~= t.subrange(0, k - 1));
            assert(s2.last() == t[k - 1]);
            if eq_chars(&chars_of(out[k - 1].0.as_str()), &fc) {
                break;
            }
            k = k - 1;
        }
        if k > 0 {
            assert(t.subrange(0, k as int).last() == t[k - 1]);
            assert(tally_pos(t.subrange(0, k as int), fc@) == k - 1);
            let n = out[k - 1].1;
            let name = out[k - 1].0.clone();
            out.set(k - 1, (name, n + 1));
            assert(count_views(out@) =~= t.update(k - 1, (fc@, t[k - 1].1 + 1)));
        } else {
            assert(t.subrange(0, 0) =~= Seq::<(Seq<char>, nat)>::empty());
            out.push((fs[i].file.clone(), 1));
            assert(count_views(out@) =~= t.push((fc@, 1)));
        }
        i = i + 1;
    }
    assert(fv.subrange(0, fv.len() as int) =~= fv);
    out
}

fn ins_desc_exec(s: Vec<(String, usize)>, x: (String, usize)) -> (out: Vec<(String, usize)>)
    ensures
        count_views(out@) == ins_desc(count_views(s@), (x.0@, x.1 as nat)),
    decreases s@.len(),
{
    let ghost sv = count_views(s@);
    let mut s = s;
    if s.len() == 0 {
        let mut v: Vec<(String, usize)> = Vec::new();
        v.push(x);
        assert(count_views(v@) =~= seq![(x.0@, x.1 as nat)]);
        return v;
    }
    let n = s.len();
    if s[n - 1].1 >= x.1 {
        let ghost xv = (x.0@, x.1 as nat);
        s.push(x);
        assert(count_views(s@) =~= sv.push(xv));
        return s;
    }
    let last = s.pop().unwrap();
    assert(count_views(s@) =~= sv.drop_last());
    let ghost lv = (last.0@, last.1 as nat);
    assert(sv.last() == lv);
    let mut r = ins_desc_exec(s, x);
    let ghost rv = count_views(r@);
    r.push(last);
    assert(count_views(r@) =~= rv.push(lv));
    r
}

fn sort_desc_exec(v: &Vec<(String, usize)>) -> (out: Vec<(String, usize)>)
    ensures
        count_views(out@) == sort_desc(count_views(v@)),
{
    let ghost cv = count_views(v@);
    let mut out: Vec<(String, usize)> = Vec::new();
    let mut i: usize = 0;
    assert(count_views(out@) =~= sort_desc(cv.subrange(0, 0)));
    while i < v.len()
        invariant
            i <= v@.len(),
            cv == count_views(v@),
            count_views(out@) == sort_desc(cv.subrange(0, i as int)),
        decreases v.len() - i,
    {
        let ghost sub = cv.subrange(0, i + 1);
        assert(sub.drop_last() =~= cv.subrange(0, i as int));
        assert(sub.last() == (v@[i as int].0@, v@[i as int].1 as nat));
        out = ins_desc_exec(out, (v[i].0.clone(), v[i].1));
        i = i + 1;
    }
    assert(cv.subrange(0, cv.len() as int) =~= cv);
    out
}


/// The rooms of the methodology this tree holds, in the fixed order.
pub open spec fn rooms_here(tree: RefTree) -> Seq<Seq<char>> {
    (if room_index(tree.rooms@, "plan"@) >= 0 { seq!["plan"@] } else { Seq::empty() }) + (if room_index(
        tree.rooms@,
        "call"@,
    ) >= 0 {
        seq!["call"@]
    } else {
        Seq::empty()
    })
}

/// What the sweep did not check, printed on every verdict it reaches.
pub open spec fn disclosure(excluded: nat, unchecked: nat, here: Seq<Seq<char>>) -> Seq<Seq<char>> {
    (if excluded > 0 {
        seq![
            "   "@ + padded(excluded, 1)
                + " document(s) were excluded and not swept (the record layer, and whatever .host-lintignore names); they are records, so nothing here asks for them to be rewritten"@,
        ]
    } else {
        Seq::empty()
    }) + (if here.len() == 0 {
        seq![
            "   no plan/ or call/ room here, so no register reference was checked against anything; this is ordinary in a software repository and a defect in a host whose rooms are named or nested differently"@,
        ]
    } else {
        Seq::empty()
    }) + (if unchecked > 0 {
        seq![
            "   "@ + padded(unchecked, 1) + " register reference(s) name a room this repository does not hold (rooms here: "@
                + (if here.len() == 0 { "none"@ } else { crate::text::joined(here, ", "@) })
                + "); they belong to its governing host and were not checked"@,
        ]
    } else {
        Seq::empty()
    })
}

pub open spec fn unread_line(d: Seq<char>) -> Seq<char> {
    "UNREAD   "@ + d + ": listed by the walk and could not be read"@
}

pub open spec fn dead_line(f: RefFindingView) -> Seq<char> {
    "DEAD     "@ + f.file + ":"@ + padded(f.line as nat, 1) + " "@ + f.text + " names no entry in that room"@
}

pub open spec fn bare_line(c: (Seq<char>, nat)) -> Seq<char> {
    "bare     "@ + c.0 + ": "@ + padded(c.1, 1) + " issue number(s) written outside a link"@
}

/// The per-file debt lines: the ten largest files, and how many more.
pub open spec fn bare_lines(by_file: Seq<(Seq<char>, nat)>) -> Seq<Seq<char>> {
    if by_file.len() > 10 {
        by_file.subrange(0, 10).map_values(|c: (Seq<char>, nat)| bare_line(c)).push(
            "bare     \u{2026} and "@ + padded((by_file.len() - 10) as nat, 1) + " more file(s)"@,
        )
    } else {
        by_file.map_values(|c: (Seq<char>, nat)| bare_line(c))
    }
}

/// The first finding whose text names a repository (holds `/`).
pub open spec fn first_qualified(fs: Seq<RefFindingView>) -> Option<Seq<char>>
    decreases fs.len(),
{
    if fs.len() == 0 {
        None
    } else if fs[0].text.contains('/') {
        Some(fs[0].text)
    } else {
        first_qualified(fs.subrange(1, fs.len() as int))
    }
}

/// How many findings name no repository (start with `#`).
pub open spec fn unqualified_count(fs: Seq<RefFindingView>) -> nat
    decreases fs.len(),
{
    if fs.len() == 0 {
        0
    } else {
        unqualified_count(fs.drop_last()) + if fs.last().text.len() > 0 && fs.last().text[0] == '#' {
            1nat
        } else {
            0nat
        }
    }
}

/// The verdict's summary lines, after the per-finding lines.
pub open spec fn summary_lines(
    listed: nat,
    unread: Seq<Seq<char>>,
    dead: Seq<RefFindingView>,
    debt: Seq<RefFindingView>,
    files: nat,
    root: Seq<char>,
) -> Seq<Seq<char>> {
    let swept = (listed - unread.len()) as nat;
    if dead.len() > 0 || unread.len() > 0 {
        seq!["-- "@ + padded(swept, 1) + " doc(s) read of "@ + padded(listed, 1) + " listed."@] + (if dead.len() > 0 {
            seq![
                "   "@ + padded(dead.len(), 1)
                    + " dead pointer(s): a reference naming a record that does not exist. Run `host-lifecycle resolve "@
                    + dead[0].text + " "@ + root + "` to see where one points."@,
            ]
        } else {
            Seq::empty()
        }) + (if unread.len() > 0 {
            seq![
                "   "@ + padded(unread.len(), 1)
                    + " document(s) could not be read, so nothing here vouches for what is in them. Fix the permissions or the encoding and sweep again."@,
            ]
        } else {
            Seq::empty()
        })
    } else if debt.len() > 0 {
        let u = unqualified_count(debt);
        seq![
            "-- "@ + padded(swept, 1) + " doc(s) swept. "@ + padded(debt.len(), 1) + " issue reference(s) in "@ + padded(
                files,
                1,
            ) + " file(s) written outside a link, so the site renders them as text rather than as links."@,
        ] + (if u > 0 {
            seq![
                "   "@ + padded(u, 1)
                    + " of them name no repository, so a reader cannot tell whose tracker they mean."@,
            ]
        } else {
            Seq::empty()
        }) + seq![
            "   Advisory: nothing is blocked. No flag fixes this; each reference is an edit."@,
            "   Write each as owner/repo#N inside a link."@,
            match first_qualified(debt) {
                Some(t) => "   For one of them: host-lifecycle resolve "@ + t + " --markdown "@ + root,
                None => "   Every one of them names no repository, so only you know which tracker each meant."@,
            },
        ]
    } else {
        seq!["-- "@ + padded(swept, 1) + " doc(s) swept; every reference in them resolves and renders"@]
    }
}

/// The exit status: `1` on any dead pointer or unread document, `3` on
/// legibility debt alone, `0` clean.
pub open spec fn verdict_code(unread: nat, dead: nat, debt: nat) -> i32 {
    if dead > 0 || unread > 0 {
        1
    } else if debt > 0 {
        3
    } else {
        0
    }
}

/// What `refs --check` prints and exits with.
pub struct RefsVerdict {
    pub code: i32,
    pub stdout: Vec<String>,
    pub stderr: Vec<String>,
}

pub open spec fn check_stdout(ds: Seq<DocView>, excluded: nat, root: Seq<char>, tree: RefTree) -> Seq<Seq<char>> {
    let fs = sweep_findings(tree, ds);
    let unread = unread_names(ds);
    let dead = of_weight(fs, Weight::DeadPointer);
    let debt = of_weight(fs, Weight::Unrendered);
    let by_file = sort_desc(tally(debt));
    unread.map_values(|d: Seq<char>| unread_line(d)) + dead.map_values(|f: RefFindingView| dead_line(f)) + bare_lines(
        by_file,
    ) + summary_lines(ds.len(), unread, dead, debt, by_file.len(), root) + disclosure(
        excluded,
        sat(unowned_total(tree, ds)) as nat,
        rooms_here(tree),
    )
}

pub open spec fn empty_corpus_message(root: Seq<char>, excluded: nat) -> Seq<char> {
    "host-lifecycle: no authored markdown to sweep under "@ + root + if excluded > 0 {
        " ("@ + padded(excluded, 1) + " document(s) excluded by .host-lintignore or the record layer)"@
    } else {
        " (not a git repository, or nothing tracked?)"@
    }
}


fn lines_push(out: &mut Vec<String>, s: String)
    ensures
        string_views(final(out)@) == string_views(old(out)@).push(s@),
{
    let ghost b = string_views(out@);
    let ghost sv = s@;
    out.push(s);
    assert(string_views(out@) =~= b.push(sv));
}

fn num_text(prefix: &str, n: u64, suffix: &str) -> (r: String)
    ensures
        r@ == prefix@ + padded(n as nat, 1) + suffix@,
{
    let mut s = String::from_str(prefix);
    let d = decimal_text(n);
    s.append(d.as_str());
    s.append(suffix);
    s
}

fn rooms_here_exec(tree: &RefTree) -> (out: Vec<String>)
    ensures
        string_views(out@) == rooms_here(*tree),
{
    let mut out: Vec<String> = Vec::new();
    proof {
        reveal_strlit("plan");
        reveal_strlit("call");
    }
    let plan = chars_of("plan");
    let call = chars_of("call");
    if room_index_exec(&tree.rooms, &plan).is_some() {
        lines_push(&mut out, String::from_str("plan"));
    }
    let ghost mid = string_views(out@);
    if room_index_exec(&tree.rooms, &call).is_some() {
        lines_push(&mut out, String::from_str("call"));
    }
    assert(string_views(out@) =~= rooms_here(*tree));
    out
}

fn disclosure_exec(out: &mut Vec<String>, excluded: u64, unchecked: u64, here: &Vec<String>)
    ensures
        string_views(final(out)@) == string_views(old(out)@) + disclosure(excluded as nat, unchecked as nat, string_views(here@)),
{
    let ghost b = string_views(out@);
    if excluded > 0 {
        lines_push(out, num_text(
            "   ",
            excluded,
            " document(s) were excluded and not swept (the record layer, and whatever .host-lintignore names); they are records, so nothing here asks for them to be rewritten",
        ));
    }
    if here.len() == 0 {
        lines_push(out, String::from_str(
            "   no plan/ or call/ room here, so no register reference was checked against anything; this is ordinary in a software repository and a defect in a host whose rooms are named or nested differently",
        ));
    }
    if unchecked > 0 {
        let mut s = num_text(
            "   ",
            unchecked,
            " register reference(s) name a room this repository does not hold (rooms here: ",
        );
        if here.len() == 0 {
            s.append("none");
        } else {
            let j = crate::text::join_texts(here, ", ");
            s.append(j.as_str());
        }
        s.append("); they belong to its governing host and were not checked");
        lines_push(out, s);
    }
    assert(string_views(out@) =~= b + disclosure(excluded as nat, unchecked as nat, string_views(here@)));
}

fn first_qualified_exec(fs: &Vec<Finding>) -> (r: Option<String>)
    ensures
        opt_text_of(r) == first_qualified(ref_finding_views(fs@)),
{
    let ghost fv = ref_finding_views(fs@);
    let mut i: usize = 0;
    assert(fv.subrange(0, fv.len() as int) =~= fv);
    while i < fs.len()
        invariant
            i <= fs@.len(),
            fv == ref_finding_views(fs@),
            first_qualified(fv) == first_qualified(fv.subrange(i as int, fv.len() as int)),
        decreases fs.len() - i,
    {
        let ghost rest = fv.subrange(i as int, fv.len() as int);
        assert(rest[0] == fs@[i as int]@);
        assert(rest.subrange(1, rest.len() as int) =~= fv.subrange(i + 1, fv.len() as int));
        if crate::text::contains_char(&chars_of(fs[i].text.as_str()), '/') {
            return Some(fs[i].text.clone());
        }
        i = i + 1;
    }
    None
}

fn unqualified_exec(fs: &Vec<Finding>) -> (n: u64)
    ensures
        n as nat == unqualified_count(ref_finding_views(fs@)),
{
    let ghost fv = ref_finding_views(fs@);
    let mut n: u64 = 0;
    let mut i: usize = 0;
    while i < fs.len()
        invariant
            i <= fs@.len(),
            fv == ref_finding_views(fs@),
            n as nat == unqualified_count(fv.subrange(0, i as int)),
            n <= i,
        decreases fs.len() - i,
    {
        let ghost sub = fv.subrange(0, i + 1);
        assert(sub.drop_last() =~= fv.subrange(0, i as int));
        assert(sub.last() == fs@[i as int]@);
        let t = chars_of(fs[i].text.as_str());
        if t.len() > 0 && t[0] == '#' {
            n = n + 1;
        }
        i = i + 1;
    }
    assert(fv.subrange(0, fv.len() as int) =~= fv);
    n
}


fn summary_exec(
    out: &mut Vec<String>,
    listed: usize,
    unread: &Vec<String>,
    dead: &Vec<Finding>,
    debt: &Vec<Finding>,
    files: usize,
    root: &str,
)
    requires
        unread@.len() <= listed,
    ensures
        string_views(final(out)@) == string_views(old(out)@) + summary_lines(
            listed as nat,
            string_views(unread@),
            ref_finding_views(dead@),
            ref_finding_views(debt@),
            files as nat,
            root@,
        ),
{
    let ghost b = string_views(out@);
    let swept = (listed - unread.len()) as u64;
    if dead.len() > 0 || unread.len() > 0 {
        let mut s = num_text("-- ", swept, " doc(s) read of ");
        let l = decimal_text(listed as u64);
        s.append(l.as_str());
        s.append(" listed.");
        lines_push(out, s);
        if dead.len() > 0 {
            let mut d = num_text(
                "   ",
                dead.len() as u64,
                " dead pointer(s): a reference naming a record that does not exist. Run `host-lifecycle resolve ",
            );
            d.append(dead[0].text.as_str());
            d.append(" ");
            d.append(root);
            d.append("` to see where one points.");
            lines_push(out, d);
        }
        if unread.len() > 0 {
            lines_push(out, num_text(
                "   ",
                unread.len() as u64,
                " document(s) could not be read, so nothing here vouches for what is in them. Fix the permissions or the encoding and sweep again.",
            ));
        }
    } else if debt.len() > 0 {
        let mut s = num_text("-- ", swept, " doc(s) swept. ");
        let n = decimal_text(debt.len() as u64);
        s.append(n.as_str());
        s.append(" issue reference(s) in ");
        let f = decimal_text(files as u64);
        s.append(f.as_str());
        s.append(" file(s) written outside a link, so the site renders them as text rather than as links.");
        lines_push(out, s);
        let u = unqualified_exec(debt);
        if u > 0 {
            lines_push(out, num_text(
                "   ",
                u,
                " of them name no repository, so a reader cannot tell whose tracker they mean.",
            ));
        }
        lines_push(out, String::from_str("   Advisory: nothing is blocked. No flag fixes this; each reference is an edit."));
        lines_push(out, String::from_str("   Write each as owner/repo#N inside a link."));
        match first_qualified_exec(debt) {
            Some(t) => {
                let mut e = String::from_str("   For one of them: host-lifecycle resolve ");
                e.append(t.as_str());
                e.append(" --markdown ");
                e.append(root);
                lines_push(out, e);
            },
            None => {
                lines_push(out, String::from_str(
                    "   Every one of them names no repository, so only you know which tracker each meant.",
                ));
            },
        }
    } else {
        lines_push(out, num_text("-- ", swept, " doc(s) swept; every reference in them resolves and renders"));
    }
    assert(string_views(out@) =~= b + summary_lines(
        listed as nat,
        string_views(unread@),
        ref_finding_views(dead@),
        ref_finding_views(debt@),
        files as nat,
        root@,
    ));
}

/// `refs --check`: sweep the listed documents, report what a reader cannot
/// follow, and settle the outcome: `0` clean, `3` advisory (legibility debt
/// only), `1` on any dead pointer or unreadable document, `2` when there is
/// nothing to sweep (a clean verdict over nothing would be indistinguishable
/// from a real pass).
#[verifier::rlimit(40)]
#[verifier::spinoff_prover]
pub fn refs_check(docs: &Vec<DocRead>, excluded: u64, root: &str, tree: &RefTree) -> (v: RefsVerdict)
    ensures
        docs@.len() == 0 ==> v.code == 2 && v.stdout@.len() == 0 && string_views(v.stderr@) == seq![
            empty_corpus_message(root@, excluded as nat),
        ],
        docs@.len() > 0 ==> v.stderr@.len() == 0 && v.code == verdict_code(
            unread_names(doc_views(docs@)).len(),
            of_weight(sweep_findings(*tree, doc_views(docs@)), Weight::DeadPointer).len(),
            of_weight(sweep_findings(*tree, doc_views(docs@)), Weight::Unrendered).len(),
        ) && string_views(v.stdout@) == check_stdout(doc_views(docs@), excluded as nat, root@, *tree),
{
    let mut stdout: Vec<String> = Vec::new();
    let mut stderr: Vec<String> = Vec::new();
    if docs.len() == 0 {
        let mut s = String::from_str("host-lifecycle: no authored markdown to sweep under ");
        s.append(root);
        if excluded > 0 {
            let t = num_text(" (", excluded, " document(s) excluded by .host-lintignore or the record layer)");
            s.append(t.as_str());
        } else {
            s.append(" (not a git repository, or nothing tracked?)");
        }
        lines_push(&mut stderr, s);
        assert(string_views(stderr@) =~= seq![empty_corpus_message(root@, excluded as nat)]);
        return RefsVerdict { code: 2, stdout, stderr };
    }
    let ghost dv = doc_views(docs@);
    let sw = sweep(docs, tree);
    proof { lemma_unread_len(dv); }
    let dead = weight_of(&sw.findings, Weight::DeadPointer);
    let debt = weight_of(&sw.findings, Weight::Unrendered);
    let counts = tally_exec(&debt);
    let by_file = sort_desc_exec(&counts);
    let ghost s0 = string_views(stdout@);
    let mut i: usize = 0;
    while i < sw.unread.len()
        invariant
            i <= sw.unread@.len(),
            string_views(stdout@) == string_views(sw.unread@).subrange(0, i as int).map_values(|d: Seq<char>| unread_line(d)),
        decreases sw.unread.len() - i,
    {
        let mut s = String::from_str("UNREAD   ");
        s.append(sw.unread[i].as_str());
        s.append(": listed by the walk and could not be read");
        let ghost b = string_views(stdout@);
        lines_push(&mut stdout, s);
        assert(string_views(stdout@) =~= string_views(sw.unread@).subrange(0, i + 1).map_values(|d: Seq<char>| unread_line(d)));
        i = i + 1;
    }
    assert(string_views(sw.unread@).subrange(0, sw.unread@.len() as int) =~= string_views(sw.unread@));
    let ghost s1 = string_views(stdout@);
    let ghost deadv = ref_finding_views(dead@);
    let mut j: usize = 0;
    while j < dead.len()
        invariant
            j <= dead@.len(),
            deadv == ref_finding_views(dead@),
            string_views(stdout@) == s1 + deadv.subrange(0, j as int).map_values(|f: RefFindingView| dead_line(f)),
        decreases dead.len() - j,
    {
        let mut s = String::from_str("DEAD     ");
        s.append(dead[j].file.as_str());
        s.append(":");
        let n = decimal_text(dead[j].line as u64);
        s.append(n.as_str());
        s.append(" ");
        s.append(dead[j].text.as_str());
        s.append(" names no entry in that room");
        assert(deadv[j as int] == dead@[j as int]@);
        lines_push(&mut stdout, s);
        assert(string_views(stdout@) =~= s1 + deadv.subrange(0, j + 1).map_values(|f: RefFindingView| dead_line(f)));
        j = j + 1;
    }
    assert(deadv.subrange(0, deadv.len() as int) =~= deadv);
    let ghost s2 = string_views(stdout@);
    let ghost bv = count_views(by_file@);
    let shown = if by_file.len() > 10 { 10 } else { by_file.len() };
    let mut k: usize = 0;
    while k < shown
        invariant
            k <= shown,
            shown <= by_file@.len(),
            shown == (if by_file@.len() > 10 { 10 } else { by_file@.len() }),
            bv == count_views(by_file@),
            string_views(stdout@) == s2 + bv.subrange(0, k as int).map_values(|c: (Seq<char>, nat)| bare_line(c)),
        decreases shown - k,
    {
        let mut s = String::from_str("bare     ");
        s.append(by_file[k].0.as_str());
        s.append(": ");
        let n = decimal_text(by_file[k].1 as u64);
        s.append(n.as_str());
        s.append(" issue number(s) written outside a link");
        assert(bv[k as int] == (by_file@[k as int].0@, by_file@[k as int].1 as nat));
        lines_push(&mut stdout, s);
        assert(string_views(stdout@) =~= s2 + bv.subrange(0, k + 1).map_values(|c: (Seq<char>, nat)| bare_line(c)));
        k = k + 1;
    }
    if by_file.len() > 10 {
        lines_push(&mut stdout, num_text("bare     \u{2026} and ", (by_file.len() - 10) as u64, " more file(s)"));
    } else {
        assert(bv.subrange(0, bv.len() as int) =~= bv);
    }
    assert(string_views(stdout@) =~= s2 + bare_lines(bv));
    summary_exec(&mut stdout, docs.len(), &sw.unread, &dead, &debt, by_file.len(), root);
    let here = rooms_here_exec(tree);
    disclosure_exec(&mut stdout, excluded, sw.unchecked, &here);
    let code: i32 = if dead.len() > 0 || sw.unread.len() > 0 {
        1
    } else if debt.len() > 0 {
        3
    } else {
        0
    };
    RefsVerdict { code, stdout, stderr }
}

proof fn lemma_unread_len(ds: Seq<DocView>)
    ensures
        unread_names(ds).len() <= ds.len(),
    decreases ds.len(),
{
    if ds.len() > 0 {
        lemma_unread_len(ds.drop_last());
    }
}


/// What `resolve` was asked: the form to emit, the reference, the tree.
pub struct ResolveArgs {
    pub emission: Emission,
    pub reference: String,
    pub dir: String,
}

/// The flag-or-operand reading of `resolve`'s arguments: the last form flag
/// wins; an unknown `--` flag is a usage error, never a directory.
pub open spec fn resolve_scan(args: Seq<Seq<char>>) -> Result<(Emission, Seq<Seq<char>>), Seq<char>>
    decreases args.len(),
{
    if args.len() == 0 {
        Ok((Emission::Path, Seq::empty()))
    } else {
        match resolve_scan(args.drop_last()) {
            Err(e) => Err(e),
            Ok((em, pos)) => {
                let a = args.last();
                if a == "--markdown"@ {
                    Ok((Emission::MarkdownLink, pos))
                } else if a == "--url"@ {
                    Ok((Emission::FullUrl, pos))
                } else if a == "--path"@ {
                    Ok((Emission::Path, pos))
                } else if crate::text::starts_with(a, "--"@) {
                    Err("host-lifecycle: unknown flag `"@ + a + "` (expected --markdown, --url or --path)"@)
                } else {
                    Ok((em, pos.push(a)))
                }
            },
        }
    }
}

pub open spec fn resolve_usage() -> Seq<char> {
    "host-lifecycle resolve <plan/NNNN|call/NNNN|#N>[#anchor] [--markdown|--url] [<dir>]"@
}

/// `resolve`'s arguments, or the usage error to print (exit status `2`).
pub open spec fn resolve_args_spec(args: Seq<Seq<char>>) -> Result<(Emission, Seq<char>, Seq<char>), Seq<char>> {
    match resolve_scan(args) {
        Err(e) => Err(e),
        Ok((em, pos)) => if pos.len() == 0 {
            Err(resolve_usage())
        } else {
            Ok((em, pos[0], if pos.len() > 1 { pos[1] } else { "."@ }))
        },
    }
}

fn text_is(a: &str, b: &str) -> (r: bool)
    ensures
        r == (a@ == b@),
{
    eq_chars(&chars_of(a), &chars_of(b))
}

pub fn parse_resolve_args(args: &Vec<String>) -> (r: Result<ResolveArgs, String>)
    ensures
        match resolve_args_spec(string_views(args@)) {
            Ok((em, reference, dir)) => r is Ok && r->Ok_0.emission == em && r->Ok_0.reference@ == reference
                && r->Ok_0.dir@ == dir,
            Err(e) => r is Err && r->Err_0@ == e,
        },
{
    let ghost av = string_views(args@);
    let mut em = Emission::Path;
    let mut pos: Vec<String> = Vec::new();
    let dash = chars_of("--");
    let mut i: usize = 0;
    assert(av.subrange(0, 0) =~= Seq::<Seq<char>>::empty());
    assert(string_views(pos@) =~= Seq::<Seq<char>>::empty());
    while i < args.len()
        invariant
            i <= args@.len(),
            av == string_views(args@),
            dash@ == "--"@,
            resolve_scan(av.subrange(0, i as int)) == Ok::<(Emission, Seq<Seq<char>>), Seq<char>>((em, string_views(pos@))),
        decreases args.len() - i,
    {
        let ghost sub = av.subrange(0, i + 1);
        assert(sub.drop_last() =~= av.subrange(0, i as int));
        assert(sub.last() == args@[i as int]@);
        let a = args[i].as_str();
        if text_is(a, "--markdown") {
            em = Emission::MarkdownLink;
        } else if text_is(a, "--url") {
            em = Emission::FullUrl;
        } else if text_is(a, "--path") {
            em = Emission::Path;
        } else if crate::text::starts_with_exec(&chars_of(a), &dash) {
            let mut m = String::from_str("host-lifecycle: unknown flag `");
            m.append(a);
            m.append("` (expected --markdown, --url or --path)");
            proof {
                lemma_scan_err(av, i as int + 1);
            }
            return Err(m);
        } else {
            let ghost p0 = string_views(pos@);
            pos.push(args[i].clone());
            assert(string_views(pos@) =~= p0.push(args@[i as int]@));
        }
        i = i + 1;
    }
    assert(av.subrange(0, av.len() as int) =~= av);
    if pos.len() == 0 {
        return Err(String::from_str(
            "host-lifecycle resolve <plan/NNNN|call/NNNN|#N>[#anchor] [--markdown|--url] [<dir>]",
        ));
    }
    let dir = if pos.len() > 1 { pos[1].clone() } else { String::from_str(".") };
    Ok(ResolveArgs { emission: em, reference: pos[0].clone(), dir })
}

/// Once the scan errs, it stays in error.
proof fn lemma_scan_err(av: Seq<Seq<char>>, n: int)
    requires
        0 < n <= av.len(),
        resolve_scan(av.subrange(0, n)) is Err,
    ensures
        resolve_scan(av) == resolve_scan(av.subrange(0, n)),
    decreases av.len() - n,
{
    if n < av.len() {
        let sub = av.subrange(0, n + 1);
        assert(sub.drop_last() =~= av.subrange(0, n));
        lemma_scan_err(av, n + 1);
    } else {
        assert(av.subrange(0, n) =~= av);
    }
}

/// What `refs` was asked.
pub struct RefsArgs {
    pub check: bool,
    pub fix: bool,
    pub dir: Option<String>,
}

pub open spec fn refs_scan(args: Seq<Seq<char>>) -> Result<(bool, bool, Seq<Seq<char>>), Seq<char>>
    decreases args.len(),
{
    if args.len() == 0 {
        Ok((false, false, Seq::empty()))
    } else {
        match refs_scan(args.drop_last()) {
            Err(e) => Err(e),
            Ok((c, f, pos)) => {
                let a = args.last();
                if a == "--check"@ {
                    Ok((true, f, pos))
                } else if a == "--fix"@ {
                    Ok((c, true, pos))
                } else if crate::text::starts_with(a, "--"@) {
                    Err("host-lifecycle: unknown flag `"@ + a + "` (expected --check)"@)
                } else {
                    Ok((c, f, pos.push(a)))
                }
            },
        }
    }
}

proof fn lemma_refs_scan_err(av: Seq<Seq<char>>, n: int)
    requires
        0 < n <= av.len(),
        refs_scan(av.subrange(0, n)) is Err,
    ensures
        refs_scan(av) == refs_scan(av.subrange(0, n)),
    decreases av.len() - n,
{
    if n < av.len() {
        let sub = av.subrange(0, n + 1);
        assert(sub.drop_last() =~= av.subrange(0, n));
        lemma_refs_scan_err(av, n + 1);
    } else {
        assert(av.subrange(0, n) =~= av);
    }
}

/// `refs`'s flags and its first operand, or the usage error for an unknown
/// flag.
pub fn parse_refs_args(args: &Vec<String>) -> (r: Result<RefsArgs, String>)
    ensures
        match refs_scan(string_views(args@)) {
            Ok((c, f, pos)) => r is Ok && r->Ok_0.check == c && r->Ok_0.fix == f && opt_text_of(r->Ok_0.dir) == (
            if pos.len() > 0 {
                Some(pos[0])
            } else {
                None
            }),
            Err(e) => r is Err && r->Err_0@ == e,
        },
{
    let ghost av = string_views(args@);
    let mut check = false;
    let mut fix = false;
    let mut pos: Vec<String> = Vec::new();
    let dash = chars_of("--");
    let mut i: usize = 0;
    assert(av.subrange(0, 0) =~= Seq::<Seq<char>>::empty());
    assert(string_views(pos@) =~= Seq::<Seq<char>>::empty());
    while i < args.len()
        invariant
            i <= args@.len(),
            av == string_views(args@),
            dash@ == "--"@,
            refs_scan(av.subrange(0, i as int)) == Ok::<(bool, bool, Seq<Seq<char>>), Seq<char>>((check, fix, string_views(pos@))),
        decreases args.len() - i,
    {
        let ghost sub = av.subrange(0, i + 1);
        assert(sub.drop_last() =~= av.subrange(0, i as int));
        assert(sub.last() == args@[i as int]@);
        let a = args[i].as_str();
        if text_is(a, "--check") {
            check = true;
        } else if text_is(a, "--fix") {
            fix = true;
        } else if crate::text::starts_with_exec(&chars_of(a), &dash) {
            let mut m = String::from_str("host-lifecycle: unknown flag `");
            m.append(a);
            m.append("` (expected --check)");
            proof {
                lemma_refs_scan_err(av, i as int + 1);
            }
            return Err(m);
        } else {
            let ghost p0 = string_views(pos@);
            pos.push(args[i].clone());
            assert(string_views(pos@) =~= p0.push(args@[i as int]@));
        }
        i = i + 1;
    }
    assert(av.subrange(0, av.len() as int) =~= av);
    let dir = if pos.len() > 0 { Some(pos[0].clone()) } else { None };
    Ok(RefsArgs { check, fix, dir })
}


/// A room entry named for a record: four digits, then `-`.
pub open spec fn record_name(n: Seq<char>) -> bool {
    n.len() > 4 && all_ascii_digits(n.subrange(0, 4)) && n[4] == '-'
}

/// The least record name among a room's entries.
pub open spec fn least_record(es: Seq<RoomEntry>) -> Option<Seq<char>>
    decreases es.len(),
{
    if es.len() == 0 {
        None
    } else {
        let m = least_record(es.drop_last());
        let n = es.last().name@;
        if record_name(n) {
            match m {
                Some(x) => if crate::text::text_lt(n, x) {
                    Some(n)
                } else {
                    Some(x)
                },
                None => Some(n),
            }
        } else {
            m
        }
    }
}

/// A register reference this tree holds, for a usage error to name: the
/// first room's least record, as `room/NNNN`. A tree without the first room
/// names none.
pub open spec fn first_register(tree: RefTree) -> Option<Seq<char>> {
    let p = room_index(tree.rooms@, "plan"@);
    if p < 0 {
        None
    } else {
        match least_record(tree.rooms@[p].entries@) {
            Some(n) => Some("plan/"@ + n.subrange(0, 4)),
            None => {
                let c = room_index(tree.rooms@, "call"@);
                if c < 0 {
                    None
                } else {
                    match least_record(tree.rooms@[c].entries@) {
                        Some(n) => Some("call/"@ + n.subrange(0, 4)),
                        None => None,
                    }
                }
            },
        }
    }
}

proof fn lemma_least_record(es: Seq<RoomEntry>)
    ensures
        least_record(es) matches Some(x) ==> record_name(x),
    decreases es.len(),
{
    if es.len() > 0 {
        lemma_least_record(es.drop_last());
    }
}

fn least_record_exec(es: &Vec<RoomEntry>) -> (r: Option<Vec<char>>)
    ensures
        match r {
            Some(v) => least_record(es@) == Some(v@) && v@.len() > 4,
            None => least_record(es@) is None,
        },
{
    let mut best: Option<Vec<char>> = None;
    let mut i: usize = 0;
    while i < es.len()
        invariant
            i <= es@.len(),
            match best {
                Some(v) => least_record(es@.subrange(0, i as int)) == Some(v@),
                None => least_record(es@.subrange(0, i as int)) is None,
            },
        decreases es.len() - i,
    {
        let ghost sub = es@.subrange(0, i + 1);
        assert(sub.drop_last() =~= es@.subrange(0, i as int));
        assert(sub.last() == es@[i as int]);
        let n = chars_of(es[i].name.as_str());
        let is_record = n.len() > 4 && all_ascii_digits_exec(&slice(&n, 0, 4)) && n[4] == '-';
        if is_record {
            best = match best {
                Some(b) => if crate::text::text_less(&n, &b) {
                    Some(n)
                } else {
                    Some(b)
                },
                None => Some(n),
            };
        }
        i = i + 1;
    }
    assert(es@.subrange(0, es@.len() as int) =~= es@);
    proof { lemma_least_record(es@); }
    best
}

fn room_record(prefix: &str, n: &Vec<char>) -> (r: String)
    requires
        n@.len() >= 4,
    ensures
        r@ == prefix@ + n@.subrange(0, 4),
{
    let mut s = String::from_str(prefix);
    crate::text::append_chars(&mut s, &slice(n, 0, 4));
    s
}

pub fn first_register_reference(tree: &RefTree) -> (r: Option<String>)
    ensures
        opt_text_of(r) == first_register(*tree),
{
    proof {
        reveal_strlit("plan");
        reveal_strlit("call");
    }
    let p = match room_index_exec(&tree.rooms, &chars_of("plan")) {
        Some(p) => p,
        None => return None,
    };
    match least_record_exec(&tree.rooms[p].entries) {
        Some(n) => return Some(room_record("plan/", &n)),
        None => {},
    }
    let c = match room_index_exec(&tree.rooms, &chars_of("call")) {
        Some(c) => c,
        None => return None,
    };
    match least_record_exec(&tree.rooms[c].entries) {
        Some(n) => Some(room_record("call/", &n)),
        None => None,
    }
}

/// The first finding of a weight.
pub open spec fn first_of_weight(fs: Seq<RefFindingView>, w: Weight) -> Option<RefFindingView>
    decreases fs.len(),
{
    if fs.len() == 0 {
        None
    } else if fs[0].weight == w {
        Some(fs[0])
    } else {
        first_of_weight(fs.subrange(1, fs.len() as int), w)
    }
}

/// The first bare issue reference over the documents, as (file, text), so a
/// refusal can name a real one.
pub open spec fn first_bare(tree: RefTree, ds: Seq<DocView>) -> Option<(Seq<char>, Seq<char>)>
    decreases ds.len(),
{
    if ds.len() == 0 {
        None
    } else {
        match ds[0].1 {
            Some(t) => match first_of_weight(doc_reports(tree, ds[0].0, prose(t)), Weight::Unrendered) {
                Some(f) => Some((f.file, f.text)),
                None => first_bare(tree, ds.subrange(1, ds.len() as int)),
            },
            None => first_bare(tree, ds.subrange(1, ds.len() as int)),
        }
    }
}

fn first_of_weight_exec(fs: &Vec<Finding>, w: Weight) -> (r: Option<(String, String)>)
    ensures
        match first_of_weight(ref_finding_views(fs@), w) {
            Some(f) => match r {
                Some(p) => p.0@ == f.file && p.1@ == f.text,
                None => false,
            },
            None => r is None,
        },
{
    let ghost fv = ref_finding_views(fs@);
    let mut i: usize = 0;
    assert(fv.subrange(0, fv.len() as int) =~= fv);
    while i < fs.len()
        invariant
            i <= fs@.len(),
            fv == ref_finding_views(fs@),
            first_of_weight(fv, w) == first_of_weight(fv.subrange(i as int, fv.len() as int), w),
        decreases fs.len() - i,
    {
        let ghost rest = fv.subrange(i as int, fv.len() as int);
        assert(rest[0] == fs@[i as int]@);
        assert(rest.subrange(1, rest.len() as int) =~= fv.subrange(i + 1, fv.len() as int));
        if fs[i].weight == w {
            return Some((fs[i].file.clone(), fs[i].text.clone()));
        }
        i = i + 1;
    }
    None
}

pub fn first_bare_reference(docs: &Vec<DocRead>, tree: &RefTree) -> (r: Option<(String, String)>)
    ensures
        match first_bare(*tree, doc_views(docs@)) {
            Some((f, t)) => match r {
                Some(p) => p.0@ == f && p.1@ == t,
                None => false,
            },
            None => r is None,
        },
{
    let ghost dv = doc_views(docs@);
    let mut i: usize = 0;
    assert(dv.subrange(0, dv.len() as int) =~= dv);
    while i < docs.len()
        invariant
            i <= docs@.len(),
            dv == doc_views(docs@),
            first_bare(*tree, dv) == first_bare(*tree, dv.subrange(i as int, dv.len() as int)),
        decreases docs.len() - i,
    {
        let ghost rest = dv.subrange(i as int, dv.len() as int);
        assert(rest[0] == (docs@[i as int].name@, opt_text_of(docs@[i as int].text)));
        assert(rest.subrange(1, rest.len() as int) =~= dv.subrange(i + 1, dv.len() as int));
        match &docs[i].text {
            Some(t) => {
                let found = scan_document(t.as_str(), docs[i].name.as_str(), tree);
                match first_of_weight_exec(&found, Weight::Unrendered) {
                    Some(p) => return Some(p),
                    None => {},
                }
            },
            None => {},
        }
        i = i + 1;
    }
    None
}


/// The first issue reference that names its repository as `owner/repo`.
pub open spec fn first_qual_refs(rs: Seq<ScannedView>) -> Option<Seq<char>>
    decreases rs.len(),
{
    if rs.len() == 0 {
        None
    } else if rs[0].reference.kind == RefKind::Issue && rs[0].reference.repo.contains('/') {
        Some(rs[0].reference.repo + "#"@ + rs[0].reference.number)
    } else {
        first_qual_refs(rs.subrange(1, rs.len() as int))
    }
}

pub open spec fn first_qual_lines(ls: Seq<(int, Seq<char>)>) -> Option<Seq<char>>
    decreases ls.len(),
{
    if ls.len() == 0 {
        None
    } else {
        match first_qual_refs(line_refs(ls[0].1)) {
            Some(x) => Some(x),
            None => first_qual_lines(ls.subrange(1, ls.len() as int)),
        }
    }
}

/// An issue reference the documents already carry in qualified form, for a
/// worked example; none when every one is bare.
pub open spec fn first_qual_docs(ds: Seq<DocView>) -> Option<Seq<char>>
    decreases ds.len(),
{
    if ds.len() == 0 {
        None
    } else {
        match ds[0].1 {
            Some(t) => match first_qual_lines(prose(t)) {
                Some(x) => Some(x),
                None => first_qual_docs(ds.subrange(1, ds.len() as int)),
            },
            None => first_qual_docs(ds.subrange(1, ds.len() as int)),
        }
    }
}

fn first_qual_refs_exec(rs: &Vec<Scanned>) -> (r: Option<String>)
    ensures
        opt_text_of(r) == first_qual_refs(scanned_views(rs@)),
{
    let ghost sv = scanned_views(rs@);
    let mut i: usize = 0;
    assert(sv.subrange(0, sv.len() as int) =~= sv);
    while i < rs.len()
        invariant
            i <= rs@.len(),
            sv == scanned_views(rs@),
            first_qual_refs(sv) == first_qual_refs(sv.subrange(i as int, sv.len() as int)),
        decreases rs.len() - i,
    {
        let ghost rest = sv.subrange(i as int, sv.len() as int);
        assert(rest[0] == rs@[i as int]@);
        assert(rest.subrange(1, rest.len() as int) =~= sv.subrange(i + 1, sv.len() as int));
        let x = &rs[i].reference;
        if x.kind == RefKind::Issue && crate::text::contains_char(&chars_of(x.repo.as_str()), '/') {
            let mut s = x.repo.clone();
            s.append("#");
            s.append(x.number.as_str());
            return Some(s);
        }
        i = i + 1;
    }
    None
}

fn first_qual_text(text: &str) -> (r: Option<String>)
    ensures
        opt_text_of(r) == first_qual_lines(prose(text@)),
{
    let ls = prose_of(text);
    let ghost pv = prose(text@);
    let mut i: usize = 0;
    assert(pv.subrange(0, pv.len() as int) =~= pv);
    while i < ls.len()
        invariant
            i <= ls@.len(),
            pv == prose(text@),
            ls@.len() == pv.len(),
            forall|k: int| 0 <= k < ls@.len() ==> (#[trigger] ls@[k]).0 as int == pv[k].0 && ls@[k].1@ == pv[k].1,
            first_qual_lines(pv) == first_qual_lines(pv.subrange(i as int, pv.len() as int)),
        decreases ls.len() - i,
    {
        let ghost rest = pv.subrange(i as int, pv.len() as int);
        assert(rest[0] == pv[i as int]);
        assert(rest.subrange(1, rest.len() as int) =~= pv.subrange(i + 1, pv.len() as int));
        let refs = scan_line(&chars_of(ls[i].1.as_str()));
        match first_qual_refs_exec(&refs) {
            Some(x) => return Some(x),
            None => {},
        }
        i = i + 1;
    }
    None
}

pub fn first_qualified_reference(docs: &Vec<DocRead>) -> (r: Option<String>)
    ensures
        opt_text_of(r) == first_qual_docs(doc_views(docs@)),
{
    let ghost dv = doc_views(docs@);
    let mut i: usize = 0;
    assert(dv.subrange(0, dv.len() as int) =~= dv);
    while i < docs.len()
        invariant
            i <= docs@.len(),
            dv == doc_views(docs@),
            first_qual_docs(dv) == first_qual_docs(dv.subrange(i as int, dv.len() as int)),
        decreases docs.len() - i,
    {
        let ghost rest = dv.subrange(i as int, dv.len() as int);
        assert(rest[0] == (docs@[i as int].name@, opt_text_of(docs@[i as int].text)));
        assert(rest.subrange(1, rest.len() as int) =~= dv.subrange(i + 1, dv.len() as int));
        match &docs[i].text {
            Some(t) => match first_qual_text(t.as_str()) {
                Some(x) => return Some(x),
                None => {},
            },
            None => {},
        }
        i = i + 1;
    }
    None
}


/// No two reports share a line and a text.
pub open spec fn distinct_reports(fs: Seq<RefFindingView>) -> bool {
    forall|i: int, j: int|
        0 <= i < j < fs.len() ==> !((#[trigger] fs[i]).line == (#[trigger] fs[j]).line && fs[i].text == fs[j].text)
}

proof fn lemma_add_report_distinct(out: Seq<RefFindingView>, file: Seq<char>, n: int, c: Option<(Seq<char>, Weight)>)
    requires
        distinct_reports(out),
    ensures
        distinct_reports(add_report(out, file, n, c)),
{
    match c {
        None => {},
        Some((t, w)) => {
            if !(exists|k: int| 0 <= k < out.len() && (#[trigger] out[k]).line == n && out[k].text == t) {
                let r = add_report(out, file, n, c);
                assert forall|i: int, j: int| 0 <= i < j < r.len() implies !((#[trigger] r[i]).line == (#[trigger] r[j]).line
                    && r[i].text == r[j].text) by {
                    if j == out.len() {
                        assert(r[i] == out[i]);
                    } else {
                        assert(r[i] == out[i] && r[j] == out[j]);
                    }
                }
            }
        },
    }
}

proof fn lemma_line_reports_distinct(out: Seq<RefFindingView>, tree: RefTree, file: Seq<char>, n: int, refs: Seq<ScannedView>)
    requires
        distinct_reports(out),
    ensures
        distinct_reports(line_reports(out, tree, file, n, refs)),
    decreases refs.len(),
{
    if refs.len() > 0 {
        lemma_line_reports_distinct(out, tree, file, n, refs.drop_last());
        lemma_add_report_distinct(line_reports(out, tree, file, n, refs.drop_last()), file, n, report_of(tree, refs.last()));
    }
}

/// One report per line and text: a markdown link that writes a reference
/// twice (its label and its target) is one finding, as a reader sees one link.
pub proof fn lemma_one_report_per_line_and_text(tree: RefTree, file: Seq<char>, ls: Seq<(int, Seq<char>)>)
    ensures
        distinct_reports(doc_reports(tree, file, ls)),
    decreases ls.len(),
{
    if ls.len() > 0 {
        lemma_one_report_per_line_and_text(tree, file, ls.drop_last());
        lemma_line_reports_distinct(doc_reports(tree, file, ls.drop_last()), tree, file, ls.last().0, line_refs(ls.last().1));
    }
}

/// A dead pointer is only ever reported into a room this tree holds: the
/// numbers a software repository cites belong to its governing host.
pub proof fn lemma_dead_pointers_need_the_room(tree: RefTree, x: ScannedView)
    ensures
        report_of(tree, x) matches Some((_, w)) && w == Weight::DeadPointer ==> owns(tree, x.reference),
        report_of(tree, x) matches Some((_, w)) && w == Weight::Unrendered ==> !x.in_link,
{
}


// ---------------------------------------------------------------------------
// The corpus: what the sweep reads, and what it withholds.
// ---------------------------------------------------------------------------

/// The record layer: the repository's append-only memory log. It is never
/// swept, whether or not the project lists it.
pub open spec fn record_layer() -> Seq<char> {
    "MEMORY.md"@
}

/// The path an exclusion line names, as written `p`, `/p`, `./p`, `p/` or
/// `p/**`: each withholds the document `p` and everything under it.
pub open spec fn exclusion_path(t: Seq<char>) -> Seq<char> {
    let u = if t.len() >= 2 && t[0] == '.' && t[1] == '/' {
        t.subrange(2, t.len() as int)
    } else if t.len() >= 1 && t[0] == '/' {
        t.subrange(1, t.len() as int)
    } else {
        t
    };
    if u.len() >= 3 && u.subrange(u.len() - 3, u.len() as int) == "/**"@ {
        u.subrange(0, u.len() - 3)
    } else if u.len() >= 1 && u.last() == '/' {
        u.drop_last()
    } else {
        u
    }
}

/// The paths an exclusion list withholds: a blank line and a `#` comment
/// name nothing.
pub open spec fn exclusions(ls: Seq<Seq<char>>) -> Seq<Seq<char>>
    decreases ls.len(),
{
    if ls.len() == 0 {
        Seq::empty()
    } else {
        let t = trim(ls.last());
        exclusions(ls.drop_last()) + if t.len() == 0 || t[0] == '#' || exclusion_path(t).len() == 0 {
            Seq::empty()
        } else {
            seq![exclusion_path(t)]
        }
    }
}

/// The first line that would re-include a document (`!p`), which the list
/// cannot do: it only withholds.
pub open spec fn reinclusion(ls: Seq<Seq<char>>) -> Option<Seq<char>>
    decreases ls.len(),
{
    if ls.len() == 0 {
        None
    } else {
        match reinclusion(ls.drop_last()) {
            Some(l) => Some(l),
            None => {
                let t = trim(ls.last());
                if t.len() > 0 && t[0] == '!' {
                    Some(t)
                } else {
                    None
                }
            },
        }
    }
}

/// A repository path is the path `p` or lies under it.
pub open spec fn under(path: Seq<char>, p: Seq<char>) -> bool {
    path == p || (path.len() > p.len() && path.subrange(0, p.len() as int) == p && path[p.len() as int] == '/')
}

/// A document, by its repository path, is withheld from the sweep.
pub open spec fn withheld(path: Seq<char>, pats: Seq<Seq<char>>) -> bool {
    path == record_layer() || exists|k: int| 0 <= k < pats.len() && under(path, #[trigger] pats[k])
}

/// The listed documents the sweep reads, in listing order; `prefix` is the
/// swept directory's path in the repository, `/`-terminated or empty.
pub open spec fn swept(listed: Seq<Seq<char>>, prefix: Seq<char>, pats: Seq<Seq<char>>) -> Seq<Seq<char>>
    decreases listed.len(),
{
    if listed.len() == 0 {
        Seq::empty()
    } else {
        swept(listed.drop_last(), prefix, pats) + if withheld(prefix + listed.last(), pats) {
            Seq::empty()
        } else {
            seq![listed.last()]
        }
    }
}

pub open spec fn refusal_text(line: Seq<char>) -> Seq<char> {
    ".host-lintignore: `"@ + line
        + "` \u{2014} re-inclusion is not supported; the list only withholds documents, so narrow the exclusion instead"@
}

/// What the sweep reads: the documents it covers and how many it withheld.
pub struct Corpus {
    pub docs: Vec<String>,
    pub excluded: usize,
}

fn exclusion_path_exec(t: &[char]) -> (r: Vec<char>)
    ensures
        r@ == exclusion_path(t@),
{
    let n = t.len();
    let u = if n >= 2 && t[0] == '.' && t[1] == '/' {
        slice(t, 2, n)
    } else if n >= 1 && t[0] == '/' {
        slice(t, 1, n)
    } else {
        slice(t, 0, n)
    };
    assert(t@.subrange(0, n as int) =~= t@);
    let m = u.len();
    proof { reveal_strlit("/**"); }
    if m >= 3 && u[m - 3] == '/' && u[m - 2] == '*' && u[m - 1] == '*' {
        assert(u@.subrange(m - 3, m as int) =~= "/**"@);
        slice(&u, 0, m - 3)
    } else {
        if m >= 3 {
            assert(u@.subrange(m - 3, m as int) != "/**"@) by {
                if u@.subrange(m - 3, m as int) == "/**"@ {
                    assert(u@.subrange(m - 3, m as int)[0] == u@[m - 3]);
                    assert(u@.subrange(m - 3, m as int)[1] == u@[m - 2]);
                    assert(u@.subrange(m - 3, m as int)[2] == u@[m - 1]);
                }
            }
        }
        if m >= 1 && u[m - 1] == '/' {
            slice(&u, 0, m - 1)
        } else {
            u
        }
    }
}

fn is_under(path: &[char], p: &[char]) -> (b: bool)
    ensures
        b == under(path@, p@),
{
    if eq_chars(path, p) {
        return true;
    }
    if path.len() > p.len() && path[p.len()] == '/' {
        let head = slice(path, 0, p.len());
        eq_chars(&head, p)
    } else {
        false
    }
}

/// A line that would re-include a document stays the first such line
/// whatever follows it.
pub proof fn lemma_reinclusion_sticks(ls: Seq<Seq<char>>, k: int)
    requires
        0 <= k <= ls.len(),
        reinclusion(ls.subrange(0, k)) is Some,
    ensures
        reinclusion(ls) == reinclusion(ls.subrange(0, k)),
    decreases ls.len() - k,
{
    if k < ls.len() {
        let s2 = ls.subrange(0, k + 1);
        assert(s2.drop_last() =~= ls.subrange(0, k));
        lemma_reinclusion_sticks(ls, k + 1);
    } else {
        assert(ls.subrange(0, k) =~= ls);
    }
}

/// Read the exclusion list: the paths it withholds, or the line that would
/// re-include one.
fn read_exclusions(text: &str) -> (r: Result<Vec<Vec<char>>, Vec<char>>)
    ensures
        match reinclusion(lines(text@)) {
            Some(l) => r matches Err(e) && e@ == l,
            None => r matches Ok(ps) && crate::text::views(ps@) == exclusions(lines(text@)),
        },
{
    let ls = crate::text::lines_exec(&chars_of(text));
    let ghost lv = crate::text::views(ls@);
    let mut out: Vec<Vec<char>> = Vec::new();
    let mut i: usize = 0;
    while i < ls.len()
        invariant
            i <= ls@.len(),
            lv == crate::text::views(ls@),
            lv == lines(text@),
            reinclusion(lv.subrange(0, i as int)) is None,
            crate::text::views(out@) == exclusions(lv.subrange(0, i as int)),
        decreases ls.len() - i,
    {
        let ghost sub = lv.subrange(0, i + 1);
        assert(sub.drop_last() =~= lv.subrange(0, i as int));
        assert(sub.last() == lv[i as int]);
        let t = crate::text::trim_exec(&ls[i]);
        if t.len() > 0 && t[0] == '!' {
            proof {
                lemma_reinclusion_sticks(lv, i + 1);
            }
            return Err(t);
        }
        if t.len() > 0 && t[0] != '#' {
            let p = exclusion_path_exec(&t);
            if p.len() > 0 {
                let ghost before = crate::text::views(out@);
                out.push(p);
                assert(crate::text::views(out@) =~= before.push(exclusion_path(t@)));
            }
        }
        assert(crate::text::views(out@) =~= exclusions(sub));
        i = i + 1;
    }
    assert(lv.subrange(0, lv.len() as int) =~= lv);
    Ok(out)
}

fn is_withheld(path: &[char], pats: &Vec<Vec<char>>) -> (b: bool)
    ensures
        b == withheld(path@, crate::text::views(pats@)),
{
    proof { reveal_strlit("MEMORY.md"); }
    if eq_chars(path, &chars_of("MEMORY.md")) {
        return true;
    }
    let ghost pv = crate::text::views(pats@);
    let mut k: usize = 0;
    while k < pats.len()
        invariant
            k <= pats@.len(),
            pv == crate::text::views(pats@),
            forall|q: int| 0 <= q < k ==> !under(path@, #[trigger] pv[q]),
        decreases pats.len() - k,
    {
        if is_under(path, &pats[k]) {
            assert(under(path@, pv[k as int]));
            return true;
        }
        k = k + 1;
    }
    false
}

/// The corpus a sweep reads from the documents the walk listed (relative to
/// the swept directory), that directory's `/`-terminated path in the
/// repository, and the repository's exclusion list, if it has one. A list
/// that would re-include a document is refused: silently narrowing coverage
/// is the failure it exists to prevent.
pub fn authored_corpus(listed: &Vec<String>, prefix: &str, list: Option<&str>) -> (r: Result<Corpus, String>)
    ensures
        match list {
            None => r matches Ok(c) && string_views(c.docs@) == swept(string_views(listed@), prefix@, Seq::empty())
                && c.excluded == listed@.len() - c.docs@.len(),
            Some(text) => match reinclusion(lines(text@)) {
                Some(l) => r matches Err(e) && e@ == refusal_text(l),
                None => r matches Ok(c) && string_views(c.docs@) == swept(
                    string_views(listed@),
                    prefix@,
                    exclusions(lines(text@)),
                ) && c.excluded == listed@.len() - c.docs@.len(),
            },
        },
{
    let pats: Vec<Vec<char>> = match list {
        None => Vec::new(),
        Some(text) => match read_exclusions(text) {
            Ok(ps) => ps,
            Err(line) => {
                let mut m = String::from_str(".host-lintignore: `");
                crate::text::append_chars(&mut m, &line);
                m.append("` \u{2014} re-inclusion is not supported; the list only withholds documents, so narrow the exclusion instead");
                return Err(m);
            },
        },
    };
    let ghost pv = crate::text::views(pats@);
    assert(list is None ==> pv =~= Seq::<Seq<char>>::empty());
    let pre = chars_of(prefix);
    let ghost lv = string_views(listed@);
    let mut docs: Vec<String> = Vec::new();
    let mut i: usize = 0;
    while i < listed.len()
        invariant
            i <= listed@.len(),
            lv == string_views(listed@),
            pv == crate::text::views(pats@),
            pre@ == prefix@,
            string_views(docs@) == swept(lv.subrange(0, i as int), prefix@, pv),
            docs@.len() <= i,
        decreases listed.len() - i,
    {
        let ghost sub = lv.subrange(0, i + 1);
        assert(sub.drop_last() =~= lv.subrange(0, i as int));
        assert(sub.last() == lv[i as int]);
        let full = crate::text::concat(&pre, &chars_of(listed[i].as_str()));
        if !is_withheld(&full, &pats) {
            let ghost before = string_views(docs@);
            docs.push(listed[i].clone());
            assert(string_views(docs@) =~= before.push(lv[i as int]));
        }
        assert(string_views(docs@) =~= swept(sub, prefix@, pv));
        i = i + 1;
    }
    assert(lv.subrange(0, lv.len() as int) =~= lv);
    let excluded = listed.len() - docs.len();
    Ok(Corpus { docs, excluded })
}


/// The sweep never reads a withheld document: not the record layer, and
/// nothing the exclusion list names or holds under a named directory.
pub proof fn lemma_withheld_is_never_swept(listed: Seq<Seq<char>>, prefix: Seq<char>, pats: Seq<Seq<char>>, k: int)
    requires
        0 <= k < swept(listed, prefix, pats).len(),
    ensures
        !withheld(prefix + swept(listed, prefix, pats)[k], pats),
        prefix + swept(listed, prefix, pats)[k] != record_layer(),
    decreases listed.len(),
{
    if listed.len() > 0 {
        let prev = swept(listed.drop_last(), prefix, pats);
        if k < prev.len() {
            lemma_withheld_is_never_swept(listed.drop_last(), prefix, pats, k);
        }
    }
}


/// Masking keeps every column: the masked text is as long as the text, has
/// its line feeds where the text has them, and differs from it only by
/// spaces.
pub proof fn lemma_masking_keeps_columns(s: Seq<char>)
    ensures
        masked(s).len() == s.len(),
        forall|k: int|
            0 <= k < s.len() ==> ((#[trigger] masked(s)[k] == '\n') == (s[k] == '\n')) && (masked(s)[k] == s[k]
                || masked(s)[k] == ' '),
{
}


/// A parsed reference has its kind's shape: a register reference names a
/// room and exactly four digits and no repository; an issue names one to
/// six digits, no room and no anchor, and a repository without whitespace
/// and with at most one `/`. A text that starts with `plan/` or `call/` is
/// never read as an issue.
pub proof fn lemma_parsed_reference_shape(text: Seq<char>)
    ensures
        reference_of(text) matches Some(r) ==> (r.kind == RefKind::Register ==> is_room(r.room) && r.number.len() == 4
            && all_ascii_digits(r.number) && r.repo.len() == 0),
        reference_of(text) matches Some(r) ==> (r.kind == RefKind::Issue ==> 1 <= r.number.len() <= 6
            && all_ascii_digits(r.number) && r.room.len() == 0 && r.anchor is None && (forall|j: int|
            0 <= j < r.repo.len() ==> !is_ws(#[trigger] r.repo[j])) && count_char(r.repo, '/') <= 1),
        (starts_with(crate::text::trim(text), "plan/"@) || starts_with(crate::text::trim(text), "call/"@)) ==> (
        reference_of(text) matches Some(r) ==> r.kind == RefKind::Register),
{
    let t = crate::text::trim(text);
    reveal_strlit("plan/");
    reveal_strlit("call/");
    reveal_strlit("plan");
    reveal_strlit("call");
    if starts_with(t, "plan/"@) || starts_with(t, "call/"@) {
        assert(t.subrange(0, 5)[4] == '/');
        assert(t[4] == '/');
        assert forall|k: int| 0 <= k < 4 implies t[k] != '/' by {
            assert(t[k] == t.subrange(0, 5)[k]);
        }
        crate::text::lemma_char_pos_at(t, '/', 4);
        if starts_with(t, "plan/"@) {
            assert(t.subrange(0, 4) =~= "plan"@) by {
                assert forall|k: int| 0 <= k < 4 implies t.subrange(0, 4)[k] == "plan"@[k] by {
                    assert(t[k] == t.subrange(0, 5)[k]);
                }
            }
        } else {
            assert(t.subrange(0, 4) =~= "call"@) by {
                assert forall|k: int| 0 <= k < 4 implies t.subrange(0, 4)[k] == "call"@[k] by {
                    assert(t[k] == t.subrange(0, 5)[k]);
                }
            }
        }
    }
}


/// A reference resolves as its kind says: a register reference exactly when
/// it names one entry in its room, which is exactly when its path can be
/// printed (and a reference with no entry is refused in every form, with
/// the reason); an issue exactly when it names its repository, or names a
/// component under a GitHub origin. A parsed reference is never malformed.
pub proof fn lemma_resolution_agrees(tree: RefTree, r: RefView, t: Option<Seq<char>>)
    ensures
        resolution_spec(tree, r) != Resolution::Malformed,
        r.kind == RefKind::Register ==> ((resolution_spec(tree, r) == Resolution::Resolved) == (path_of(tree, r) is Some)),
        r.kind == RefKind::Register ==> ((path_of(tree, r) is Some) == (emit_spec(tree, r, Emission::Path, t) is Ok)),
        r.kind == RefKind::Register && path_of(tree, r) is None ==> forall|e: Emission| #[trigger] emit_spec(tree, r, e, t)
            == Err::<Seq<char>, Seq<char>>(unresolved_text(tree, r, name_order(tree, r))),
        r.kind == RefKind::Issue ==> ((resolution_spec(tree, r) == Resolution::Resolved) == (r.repo.contains('/') || (
        r.repo.len() > 0 && origin_slug_of(tree) is Some))),
{
}


/// A register reference that does not resolve says which of the three
/// cases it is in: an ambiguity when the room holds two or more entries with
/// its number; a register of the governing host when this repository holds
/// no such room; otherwise a room that exists and holds no such number.
pub proof fn lemma_unresolved_names_its_case(tree: RefTree, r: RefView)
    ensures
        ({
            let names = name_order(tree, r);
            let m = unresolved_text(tree, r, names);
            &&& names.len() > 1 ==> starts_with(m, "ambiguous: "@)
            &&& names.len() <= 1 && room_index(tree.rooms@, r.room) < 0 ==> starts_with(
                m,
                "unresolved here: this repository holds no "@,
            ) && contains(m, "governing host"@)
            &&& names.len() <= 1 && room_index(tree.rooms@, r.room) >= 0 ==> starts_with(
                m,
                "unresolved here: "@ + r.room + "/ exists"@,
            )
        }),
{
    let names = name_order(tree, r);
    let m = unresolved_text(tree, r, names);
    if names.len() > 1 {
        let p = "ambiguous: "@;
        assert(m.subrange(0, p.len() as int) =~= p);
    } else if room_index(tree.rooms@, r.room) < 0 {
        let a = "unresolved here: this repository holds no "@;
        let b = "/ room, so "@;
        let c = " names a register of its governing host and cannot be resolved from here"@;
        assert(m == a + r.room + b + r.room + "/"@ + r.number + c);
        assert(m.subrange(0, a.len() as int) =~= a);
        reveal_strlit("unresolved here: this repository holds no ");
        reveal_strlit("/ room, so ");
        reveal_strlit("/");
        reveal_strlit(" names a register of its governing host and cannot be resolved from here");
        reveal_strlit("governing host");
        let g = "governing host"@;
        let at: int = (42 + r.room.len() + 11 + r.room.len() + 1 + r.number.len() + 25) as int;
        assert(m.subrange(at, at + g.len()) =~= g);
        assert(occurs_at(m, g, at));
    } else {
        let p = "unresolved here: "@ + r.room + "/ exists"@;
        let q = "unresolved here: "@ + r.room + "/ exists and holds no entry numbered "@;
        assert(q =~= p + " and holds no entry numbered "@) by {
            reveal_strlit("/ exists and holds no entry numbered ");
            reveal_strlit("/ exists");
            reveal_strlit(" and holds no entry numbered ");
        }
        assert(m.subrange(0, p.len() as int) =~= p);
    }
}


/// A report a document sweep can make: it names the document swept, and a
/// dead pointer is a register reference into a room this tree holds that
/// names no entry there.
pub open spec fn report_ok(tree: RefTree, file: Seq<char>, f: RefFindingView) -> bool {
    &&& f.file == file
    &&& f.weight == Weight::DeadPointer ==> exists|x: RefView|
        #[trigger] owns(tree, x) && f.text == x.room + "/"@ + x.number && resolution_spec(tree, x)
            == Resolution::UnresolvedHere
}

pub open spec fn reports_ok(tree: RefTree, file: Seq<char>, fs: Seq<RefFindingView>) -> bool {
    forall|k: int| 0 <= k < fs.len() ==> report_ok(tree, file, #[trigger] fs[k])
}

proof fn lemma_add_report_ok(out: Seq<RefFindingView>, tree: RefTree, file: Seq<char>, n: int, x: ScannedView)
    requires
        reports_ok(tree, file, out),
    ensures
        reports_ok(tree, file, add_report(out, file, n, report_of(tree, x))),
{
    let r = add_report(out, file, n, report_of(tree, x));
    assert forall|k: int| 0 <= k < r.len() implies report_ok(tree, file, #[trigger] r[k]) by {
        if k < out.len() {
            assert(r[k] == out[k]);
        } else {
            let w = x.reference;
            if r[k].weight == Weight::DeadPointer {
                assert(owns(tree, w));
            }
        }
    }
}

proof fn lemma_line_reports_ok(out: Seq<RefFindingView>, tree: RefTree, file: Seq<char>, n: int, refs: Seq<ScannedView>)
    requires
        reports_ok(tree, file, out),
    ensures
        reports_ok(tree, file, line_reports(out, tree, file, n, refs)),
    decreases refs.len(),
{
    if refs.len() > 0 {
        lemma_line_reports_ok(out, tree, file, n, refs.drop_last());
        lemma_add_report_ok(line_reports(out, tree, file, n, refs.drop_last()), tree, file, n, refs.last());
    }
}

/// Every report of a document sweep names the document, and a dead pointer
/// is only ever a register reference into a room this tree holds that names
/// no entry there (with one report per line and text, as
/// `lemma_one_report_per_line_and_text` states).
pub proof fn lemma_reports_name_their_document(tree: RefTree, file: Seq<char>, ls: Seq<(int, Seq<char>)>)
    ensures
        reports_ok(tree, file, doc_reports(tree, file, ls)),
    decreases ls.len(),
{
    if ls.len() > 0 {
        lemma_reports_name_their_document(tree, file, ls.drop_last());
        lemma_line_reports_ok(doc_reports(tree, file, ls.drop_last()), tree, file, ls.last().0, line_refs(ls.last().1));
    }
}


pub proof fn lemma_joined_contains(parts: Seq<Seq<char>>, sep: Seq<char>, k: int)
    requires
        0 <= k < parts.len(),
    ensures
        contains(joined(parts, sep), parts[k]),
    decreases parts.len(),
{
    let j = joined(parts, sep);
    if parts.len() == 1 {
        assert(j.subrange(0, parts[0].len() as int) =~= parts[0]);
        assert(occurs_at(j, parts[k], 0));
    } else {
        let d = parts.drop_last();
        let jd = joined(d, sep);
        assert(j == jd + sep + parts.last());
        if k == parts.len() - 1 {
            let at: int = (jd.len() + sep.len()) as int;
            assert(j.subrange(at, at + parts.last().len()) =~= parts.last());
            assert(occurs_at(j, parts[k], at));
        } else {
            assert(d[k] == parts[k]);
            lemma_joined_contains(d, sep, k);
            let i = choose|i: int| occurs_at(jd, d[k], i);
            assert(j.subrange(i, i + d[k].len()) =~= jd.subrange(i, i + d[k].len()));
            assert(occurs_at(j, parts[k], i));
        }
    }
}

proof fn lemma_no_g(s: Seq<char>)
    requires
        forall|k: int| 0 <= k < s.len() ==> (#[trigger] s[k]) != 'g',
    ensures
        !contains(s, "governing host"@),
{
    reveal_strlit("governing host");
    if contains(s, "governing host"@) {
        let i = choose|i: int| occurs_at(s, "governing host"@, i);
        assert(s.subrange(i, i + 14)[0] == s[i]);
    }
}

/// An ambiguous reference's message names every entry its number picks out;
/// a room that exists and holds no such number is never blamed on the
/// governing host.
pub proof fn lemma_unresolved_names_the_entries(tree: RefTree, r: RefView)
    ensures
        ({
            let names = name_order(tree, r);
            let m = unresolved_text(tree, r, names);
            names.len() > 1 ==> forall|k: int| 0 <= k < names.len() ==> contains(m, #[trigger] names[k])
        }),
        ({
            let names = name_order(tree, r);
            let m = unresolved_text(tree, r, names);
            names.len() <= 1 && room_index(tree.rooms@, r.room) >= 0 && is_room(r.room) && all_ascii_digits(r.number)
                ==> !contains(m, "governing host"@)
        }),
{
    let names = name_order(tree, r);
    let m = unresolved_text(tree, r, names);
    if names.len() > 1 {
        let a = "ambiguous: "@ + r.room + "/"@ + r.number + " names "@ + padded(names.len(), 1) + " entries in "@ + r.room
            + "/ ("@;
        let b = "). Rename or remove one; a reference that resolves two ways resolves to neither"@;
        let jn = crate::text::joined(names, ", "@);
        assert(m == a + jn + b);
        assert forall|k: int| 0 <= k < names.len() implies contains(m, #[trigger] names[k]) by {
            lemma_joined_contains(names, ", "@, k);
            let i = choose|i: int| occurs_at(jn, names[k], i);
            assert(m.subrange(a.len() + i, a.len() + i + names[k].len()) =~= jn.subrange(i, i + names[k].len()));
            assert(occurs_at(m, names[k], a.len() + i));
        }
    } else if room_index(tree.rooms@, r.room) >= 0 && is_room(r.room) && all_ascii_digits(r.number) {
        let a = "unresolved here: "@;
        let b = "/ exists and holds no entry numbered "@;
        reveal_strlit("unresolved here: ");
        reveal_strlit("/ exists and holds no entry numbered ");
        reveal_strlit("plan");
        reveal_strlit("call");
        assert(m == a + r.room + b + r.number);
        assert forall|k: int| 0 <= k < a.len() implies (#[trigger] a[k]) != 'g' by {}
        assert forall|k: int| 0 <= k < b.len() implies (#[trigger] b[k]) != 'g' by {}
        assert forall|k: int| 0 <= k < r.room.len() implies (#[trigger] r.room[k]) != 'g' by {}
        assert forall|k: int| 0 <= k < r.number.len() implies (#[trigger] r.number[k]) != 'g' by {
            assert(is_ascii_digit(r.number[k]));
        }
        assert forall|k: int| 0 <= k < m.len() implies (#[trigger] m[k]) != 'g' by {
            if k < a.len() {
                assert(m[k] == a[k]);
            } else if k < a.len() + r.room.len() {
                assert(m[k] == r.room[k - a.len()]);
            } else if k < a.len() + r.room.len() + b.len() {
                assert(m[k] == b[k - a.len() - r.room.len()]);
            } else {
                assert(m[k] == r.number[k - a.len() - r.room.len() - b.len()]);
            }
        }
        lemma_no_g(m);
    }
}


/// How `resolve` ends once its reference has been read against the tree:
/// text that is no reference exits `2` with nothing emitted; otherwise the
/// emission is made, and it exits `0` with the emitted text or `1` with the
/// reason it failed.
pub fn resolve_result(tree: &RefTree, text: &str, emission: Emission, entry_text: Option<&str>) -> (r: (
    i32,
    Option<Result<String, String>>,
))
    ensures
        match reference_of(text@) {
            None => r.0 == 2 && r.1 is None,
            Some(x) => match emit_spec(*tree, x, emission, match entry_text { Some(t) => Some(t@), None => None }) {
                Ok(t) => r.1 matches Some(Ok(s)) && s@ == t && r.0 == 0,
                Err(e) => r.1 matches Some(Err(s)) && s@ == e && r.0 == 1,
            },
        },
{
    match parse_reference(text) {
        None => (2, None),
        Some(reference) => {
            let out = emit(tree, &reference, emission, entry_text);
            let code: i32 = match &out {
                Ok(_) => 0,
                Err(_) => 1,
            };
            (code, Some(out))
        },
    }
}


proof fn lemma_last_pair_at(s: Seq<char>, a: char, b: char, j: int)
    requires
        0 <= j,
        j + 1 < s.len(),
        s[j] == a,
        s[j + 1] == b,
        forall|i: int| j + 1 < i < s.len() ==> s[i] != b,
    ensures
        last_pair(s, a, b) == j,
    decreases s.len(),
{
    if s.len() - 2 != j {
        assert(s.last() != b);
        lemma_last_pair_at(s.drop_last(), a, b, j);
    }
}

/// A span that follows a closed link on its line, `[...](...)` with nothing
/// between that link's `](` and the span opening another label or target,
/// is in no link: the `)` that closed the earlier target keeps the span out
/// of it, whatever `)` comes later on the line, and the `]` keeps it out of
/// the label.
pub proof fn lemma_after_a_closed_link(line: Seq<char>, start: int, end: int, j: int, k: int)
    requires
        0 <= j,
        j + 1 < k,
        k < start,
        start <= end <= line.len(),
        line[j] == ']',
        line[j + 1] == '(',
        line[k] == ')',
        forall|i: int| j + 1 < i < start ==> line[i] != '[' && line[i] != '(',
    ensures
        !in_link(line, start, end),
{
    let before = line.subrange(0, start);
    lemma_char_rpos(before, '[');
    let lb = char_rpos(before, '[');
    if lb >= 0 {
        assert(lb < j) by {
            if lb >= j {
                assert(before[lb] == '[');
                assert(line[lb] == '[');
            }
        }
        let tail = before.subrange(lb, before.len() as int);
        assert(tail[j - lb] == ']');
        assert(tail.contains(']'));
    }
    lemma_last_pair_at(before, ']', '(', j);
    let tail2 = before.subrange(j, before.len() as int);
    assert(tail2[k - j] == ')');
    assert(tail2.contains(')'));
}

/// A resolved issue reference's URL is `https://` + host + `/` +
/// owner/repo + `/issues/` + number, and its markdown link targets that same
/// URL behind `owner/repo#number`; an issue that gives no URL gives no link.
/// With no origin remote to name a host, a qualified `owner/repo#N` goes to
/// github.com.
pub proof fn lemma_issue_urls(tree: RefTree, r: RefView, t: Option<Seq<char>>)
    requires
        r.kind == RefKind::Issue,
    ensures
        match emit_spec(tree, r, Emission::FullUrl, t) {
            Ok(u) => exists|host: Seq<char>, sl: Seq<char>|
                u == "https://"@ + host + "/"@ + sl + "/issues/"@ + r.number && host == match origin_host_of(tree) {
                    Some(h) => h,
                    None => "github.com"@,
                } && (r.repo.contains('/') ==> sl == r.repo) && (!r.repo.contains('/') ==> sl.len() > r.repo.len()
                    && sl.subrange(sl.len() - r.repo.len() - 1, sl.len() as int) == "/"@ + r.repo) && #[trigger] emit_spec(
                    tree,
                    r,
                    Emission::MarkdownLink,
                    t,
                ) == Ok::<Seq<char>, Seq<char>>("["@ + sl + "#"@ + r.number + "]("@ + u + ")"@),
            Err(_) => emit_spec(tree, r, Emission::MarkdownLink, t) is Err,
        },
        r.repo.contains('/') && tree.origin_url is None ==> emit_spec(tree, r, Emission::FullUrl, t) == Ok::<
            Seq<char>,
            Seq<char>,
        >("https://"@ + "github.com"@ + "/"@ + r.repo + "/issues/"@ + r.number),
{
    reveal_strlit("](");
    reveal_strlit("](https://");
    reveal_strlit("https://");
    assert("](https://"@ =~= "]("@ + "https://"@);
    match emit_spec(tree, r, Emission::FullUrl, t) {
        Ok(u) => {
            let owner = match recorded_owner_of(tree, r.repo) {
                Some(o) => Some(o),
                None => match origin_slug_of(tree) {
                    Some(sl) => Some(sl.subrange(0, char_pos(sl, '/'))),
                    None => None,
                },
            };
            let slug = if r.repo.contains('/') { Some(r.repo) } else {
                match owner {
                    Some(o) => Some(o + "/"@ + r.repo),
                    None => None,
                }
            };
            let sl = slug->0;
            let host = match origin_host_of(tree) {
                Some(h) => h,
                None => "github.com"@,
            };
            assert(u == "https://"@ + host + "/"@ + sl + "/issues/"@ + r.number);
            if !r.repo.contains('/') {
                reveal_strlit("/");
                assert(sl.subrange(sl.len() - r.repo.len() - 1, sl.len() as int) =~= "/"@ + r.repo);
            }
            let md = "["@ + sl + "#"@ + r.number + "](https://"@ + host + "/"@ + sl + "/issues/"@ + r.number + ")"@;
            assert(md =~= "["@ + sl + "#"@ + r.number + "]("@ + u + ")"@);
            assert(emit_spec(tree, r, Emission::MarkdownLink, t) == Ok::<Seq<char>, Seq<char>>(
                "["@ + sl + "#"@ + r.number + "]("@ + u + ")"@,
            ));
        },
        Err(_) => {},
    }
}


/// The branch taken from the origin's head is what follows the head's last
/// `/` (`origin/main` gives `main`): it never holds a `/`, and, where the
/// head ends in a name, it is exactly the trailing name of the trimmed head.
pub proof fn lemma_origin_branch_is_its_last_name(tree: RefTree)
    requires
        tree.origin_head is Some,
    ensures
        !branch_of(tree).contains('/'),
        ({
            let h = trim(tree.origin_head->0@);
            let b = branch_of(tree);
            h.len() > 0 && h.last() != '/' ==> {
                &&& 0 < b.len() <= h.len()
                &&& h.subrange(h.len() - b.len(), h.len() as int) == b
                &&& b.len() < h.len() ==> h[h.len() - b.len() - 1] == '/'
            }
        }),
{
    let h = trim(tree.origin_head->0@);
    lemma_char_rpos(h, '/');
    let p = last_piece(h);
    let b = branch_of(tree);
    reveal_strlit("main");
    if p.len() > 0 {
        assert(b == p);
        assert forall|i: int| 0 <= i < b.len() implies b[i] != '/' by {
            assert(b[i] == h[char_rpos(h, '/') + 1 + i]);
        }
        assert(h.subrange(h.len() - b.len(), h.len() as int) =~= b);
    } else {
        assert(b == "main"@);
        assert forall|i: int| 0 <= i < b.len() implies b[i] != '/' by {}
        if h.len() > 0 && h.last() != '/' {
            assert(char_rpos(h, '/') < h.len() - 1);
        }
    }
}


/// Without an origin head the branch is the local head, trimmed, and `main`
/// only where no head answered with a name.
pub proof fn lemma_branch_falls_back_to_the_local_head(tree: RefTree)
    requires
        tree.origin_head is None,
    ensures
        tree.head is Some && trim(tree.head->0@).len() > 0 ==> branch_of(tree) == trim(tree.head->0@),
        tree.head is None ==> branch_of(tree) == "main"@,
{
}


/// A span inside an open link target is in a link: after a `](` with no
/// `(` or `)` between it and the span, and a `)` somewhere after the span.
pub proof fn lemma_inside_an_open_target(line: Seq<char>, start: int, end: int, j: int, m: int)
    requires
        0 <= j,
        j + 1 < start,
        start <= end <= m < line.len(),
        line[j] == ']',
        line[j + 1] == '(',
        line[m] == ')',
        forall|i: int| j + 1 < i < start ==> line[i] != '(' && line[i] != ')',
    ensures
        in_link(line, start, end),
{
    let before = line.subrange(0, start);
    let after = line.subrange(end, line.len() as int);
    lemma_last_pair_at(before, ']', '(', j);
    let tail = before.subrange(j, before.len() as int);
    assert(!tail.contains(')')) by {
        if tail.contains(')') {
            let q = choose|q: int| 0 <= q < tail.len() && tail[q] == ')';
            assert(line[j + q] == ')');
        }
    }
    assert(after[m - end] == ')');
}

/// A span inside a link label is in a link: after a `[` with no `[` or `]`
/// between it and the span, and followed by the label's `]` and the
/// target's `(`, no `]` coming earlier after the span.
pub proof fn lemma_inside_a_label(line: Seq<char>, start: int, end: int, a: int, c: int)
    requires
        0 <= a < start,
        start <= end <= c,
        c + 1 < line.len(),
        line[a] == '[',
        line[c] == ']',
        line[c + 1] == '(',
        forall|i: int| a < i < start ==> line[i] != '[' && line[i] != ']',
        forall|i: int| end <= i < c ==> line[i] != ']',
    ensures
        in_link(line, start, end),
{
    let before = line.subrange(0, start);
    let after = line.subrange(end, line.len() as int);
    lemma_char_rpos(before, '[');
    let lb = char_rpos(before, '[');
    assert(lb == a) by {
        if lb < a {
            assert(before[a] == '[');
        }
        if lb > a {
            assert(before[lb] == '[');
        }
    }
    let tail = before.subrange(lb, before.len() as int);
    assert(!tail.contains(']')) by {
        if tail.contains(']') {
            let q = choose|q: int| 0 <= q < tail.len() && tail[q] == ']';
            assert(line[a + q] == ']');
        }
    }
    crate::text::lemma_char_pos_at(after, ']', c - end);
    assert(after[c - end + 1] == '(');
}

} // verus!
