//! The `dream` audit over the project's two memory stores: the repo
//! `MEMORY.md` (append-only) and the per-user store (editable). Every defect is
//! one finding, routed `edit` on the per-user store and `append` on the repo
//! store, with a confidence: `confirmed` findings gate a run, review prompts
//! advise.
//!
//! This module holds the detectors, the tier-marker lifecycle and the verdict;
//! reading the stores and the git history is the program's part.

use vstd::prelude::*;
use vstd::string::*;

use crate::memory::{decimal_text, escape_quoted, padded, EntryType, EntryView, MemoryEntry};
use crate::text::{
    append_chars, char_is_alnum, char_is_ws, eq_chars, is_alnum, chars_of, concat, contains, contains_exec, find, find_first,
    first_word, first_word_exec, is_ascii_alnum, is_ascii_digit, is_first_occurrence, is_ws,
    lemma_find_first, lowercase, occurs_at, occurs_at_exec, slice, string_of, string_views,
    to_lower, trim, trim_exec, utf8_len, utf8_len_at_least, trim_matches, trim_matches_exec, lines,
    lines_exec, views, starts_with, starts_with_exec, push_char, joined, join_texts, text_less, text_lt,
    lemma_text_lt_total, lemma_text_lt_trans, strictly_sorted, insert_sorted,
};

verus! {

/// One memory-store location.
#[derive(Clone, Copy, Debug, PartialEq, Eq, Structural)]
pub enum StoreLoc {
    Repo,
    PerUser,
}

impl StoreLoc {
    pub open spec fn name(self) -> Seq<char> {
        match self {
            StoreLoc::Repo => "repo"@,
            StoreLoc::PerUser => "per-user"@,
        }
    }

    pub fn as_str(self) -> (r: &'static str)
        ensures
            r@ == self.name(),
    {
        match self {
            StoreLoc::Repo => "repo",
            StoreLoc::PerUser => "per-user",
        }
    }
}

/// One finding's route: `edit` on the per-user store, `append` on the repo
/// store.
#[derive(Clone, Copy, Debug, PartialEq, Eq, Structural)]
pub enum Route {
    Edit,
    Append,
}

impl Route {
    pub open spec fn name(self) -> Seq<char> {
        match self {
            Route::Edit => "edit"@,
            Route::Append => "append"@,
        }
    }

    pub fn as_str(self) -> (r: &'static str)
        ensures
            r@ == self.name(),
    {
        match self {
            Route::Edit => "edit",
            Route::Append => "append",
        }
    }
}

/// A finding's confidence: `Confirmed` is mechanically evidenced and gates the
/// run; `ReviewPrompt` is an unverified hypothesis whose lead remedy is a
/// review note.
#[derive(Clone, Copy, Debug, PartialEq, Eq, Structural)]
pub enum Confidence {
    Confirmed,
    ReviewPrompt,
}

impl Confidence {
    pub open spec fn name(self) -> Seq<char> {
        match self {
            Confidence::Confirmed => "confirmed"@,
            Confidence::ReviewPrompt => "review-prompt"@,
        }
    }

    pub fn as_str(self) -> (r: &'static str)
        ensures
            r@ == self.name(),
    {
        match self {
            Confidence::Confirmed => "confirmed",
            Confidence::ReviewPrompt => "review-prompt",
        }
    }
}

/// The per-user tier's declared state, read from the repo-side marker file.
/// `Absent`: never initialized anywhere; `Stamped`: declared in use;
/// `Retired`: declared out of use by the operator.
#[derive(Clone, Copy, Debug, PartialEq, Eq, Structural)]
pub enum TierState {
    Absent,
    Stamped,
    Retired,
}

/// The detector classes, in declaration order.
#[derive(Clone, Copy, Debug, PartialEq, Eq, Structural)]
pub enum DetectorKind {
    SupersededButUnlinked,
    DanglingLink,
    RoomTouching,
    DescriptionBodyDrift,
    StaleStateOverLore,
    WorkaroundVsPlan,
    AppendOnlyViolation,
}

/// The declared applicability table: each detector, the stores its format
/// fits, and the format fact that justifies it.
impl DetectorKind {
    pub open spec fn name(self) -> Seq<char> {
        match self {
            DetectorKind::SupersededButUnlinked => "superseded-but-unlinked"@,
            DetectorKind::DanglingLink => "dangling-link"@,
            DetectorKind::RoomTouching => "room-touching"@,
            DetectorKind::DescriptionBodyDrift => "description-body-drift"@,
            DetectorKind::StaleStateOverLore => "stale-state-over-lore"@,
            DetectorKind::WorkaroundVsPlan => "workaround-vs-plan"@,
            DetectorKind::AppendOnlyViolation => "append-only-violation"@,
        }
    }

    pub open spec fn covers(self, loc: StoreLoc) -> bool {
        match self {
            DetectorKind::SupersededButUnlinked => loc == StoreLoc::PerUser,
            DetectorKind::DanglingLink => true,
            DetectorKind::RoomTouching => true,
            DetectorKind::DescriptionBodyDrift => loc == StoreLoc::PerUser,
            DetectorKind::StaleStateOverLore => loc == StoreLoc::PerUser,
            DetectorKind::WorkaroundVsPlan => loc == StoreLoc::PerUser,
            DetectorKind::AppendOnlyViolation => loc == StoreLoc::Repo,
        }
    }

    pub open spec fn reason(self) -> Seq<char> {
        match self {
            DetectorKind::SupersededButUnlinked => "the repo format has no supersession field; supersession there rides a forward link in an appended correction"@,
            DetectorKind::DanglingLink => "the [[slug]] notation spans both tiers; resolution is against the union"@,
            DetectorKind::RoomTouching => "room references appear in either tier's prose"@,
            DetectorKind::DescriptionBodyDrift => "the repo format has no per-entry description field"@,
            DetectorKind::StaleStateOverLore => "entry types exist only in the per-user frontmatter"@,
            DetectorKind::WorkaroundVsPlan => "entry types exist only in the per-user frontmatter"@,
            DetectorKind::AppendOnlyViolation => "the append-only discipline binds the repo log only"@,
        }
    }

    /// The rows in declaration order.
    pub open spec fn all() -> Seq<DetectorKind> {
        seq![
            DetectorKind::SupersededButUnlinked,
            DetectorKind::DanglingLink,
            DetectorKind::RoomTouching,
            DetectorKind::DescriptionBodyDrift,
            DetectorKind::StaleStateOverLore,
            DetectorKind::WorkaroundVsPlan,
            DetectorKind::AppendOnlyViolation,
        ]
    }

    pub fn kind_str(self) -> (r: &'static str)
        ensures
            r@ == self.name(),
    {
        match self {
            DetectorKind::SupersededButUnlinked => "superseded-but-unlinked",
            DetectorKind::DanglingLink => "dangling-link",
            DetectorKind::RoomTouching => "room-touching",
            DetectorKind::DescriptionBodyDrift => "description-body-drift",
            DetectorKind::StaleStateOverLore => "stale-state-over-lore",
            DetectorKind::WorkaroundVsPlan => "workaround-vs-plan",
            DetectorKind::AppendOnlyViolation => "append-only-violation",
        }
    }

    pub fn covers_exec(self, loc: StoreLoc) -> (b: bool)
        ensures
            b == self.covers(loc),
    {
        match self {
            DetectorKind::SupersededButUnlinked => loc == StoreLoc::PerUser,
            DetectorKind::DanglingLink => true,
            DetectorKind::RoomTouching => true,
            DetectorKind::DescriptionBodyDrift => loc == StoreLoc::PerUser,
            DetectorKind::StaleStateOverLore => loc == StoreLoc::PerUser,
            DetectorKind::WorkaroundVsPlan => loc == StoreLoc::PerUser,
            DetectorKind::AppendOnlyViolation => loc == StoreLoc::Repo,
        }
    }

    pub fn reason_str(self) -> (r: &'static str)
        ensures
            r@ == self.reason(),
    {
        match self {
            DetectorKind::SupersededButUnlinked => "the repo format has no supersession field; supersession there rides a forward link in an appended correction",
            DetectorKind::DanglingLink => "the [[slug]] notation spans both tiers; resolution is against the union",
            DetectorKind::RoomTouching => "room references appear in either tier's prose",
            DetectorKind::DescriptionBodyDrift => "the repo format has no per-entry description field",
            DetectorKind::StaleStateOverLore => "entry types exist only in the per-user frontmatter",
            DetectorKind::WorkaroundVsPlan => "entry types exist only in the per-user frontmatter",
            DetectorKind::AppendOnlyViolation => "the append-only discipline binds the repo log only",
        }
    }
}

/// Whether a detector's declared applicability covers a store. Unknown kinds
/// count as applicable, so a new detector cannot be skipped by a missing row.
pub open spec fn spec_applies(kind: Seq<char>, loc: StoreLoc) -> bool {
    forall|d: DetectorKind| d.name() == kind ==> d.covers(loc)
}

proof fn lemma_detector_name_injective(a: DetectorKind, b: DetectorKind)
    requires
        a.name() == b.name(),
    ensures
        a == b,
{
    reveal_strlit("superseded-but-unlinked");
    reveal_strlit("dangling-link");
    reveal_strlit("room-touching");
    reveal_strlit("description-body-drift");
    reveal_strlit("stale-state-over-lore");
    reveal_strlit("workaround-vs-plan");
    reveal_strlit("append-only-violation");
    assert(a.name().len() == b.name().len() && a.name()[0] == b.name()[0]);
    assert(a.name().len() == DetectorKind::name_len(a) && a.name()[0] == DetectorKind::name_head(a));
    assert(b.name().len() == DetectorKind::name_len(b) && b.name()[0] == DetectorKind::name_head(b));
}

impl DetectorKind {
    spec fn name_len(d: DetectorKind) -> int {
        match d {
            DetectorKind::SupersededButUnlinked => 23,
            DetectorKind::DanglingLink => 13,
            DetectorKind::RoomTouching => 13,
            DetectorKind::DescriptionBodyDrift => 22,
            DetectorKind::StaleStateOverLore => 21,
            DetectorKind::WorkaroundVsPlan => 18,
            DetectorKind::AppendOnlyViolation => 21,
        }
    }

    spec fn name_head(d: DetectorKind) -> char {
        match d {
            DetectorKind::SupersededButUnlinked => 's',
            DetectorKind::DanglingLink => 'd',
            DetectorKind::RoomTouching => 'r',
            DetectorKind::DescriptionBodyDrift => 'd',
            DetectorKind::StaleStateOverLore => 's',
            DetectorKind::WorkaroundVsPlan => 'w',
            DetectorKind::AppendOnlyViolation => 'a',
        }
    }
}

/// Whether the named detector applies to a store.
pub fn applies(kind: &str, loc: StoreLoc) -> (b: bool)
    ensures
        b == spec_applies(kind@, loc),
{
    let k = chars_of(kind);
    let mut i: usize = 0;
    let rows: [DetectorKind; 7] = [
        DetectorKind::SupersededButUnlinked,
        DetectorKind::DanglingLink,
        DetectorKind::RoomTouching,
        DetectorKind::DescriptionBodyDrift,
        DetectorKind::StaleStateOverLore,
        DetectorKind::WorkaroundVsPlan,
        DetectorKind::AppendOnlyViolation,
    ];
    assert(rows@ =~= DetectorKind::all());
    while i < 7
        invariant
            rows@ == DetectorKind::all(),
            k@ == kind@,
            i <= 7,
            forall|j: int| 0 <= j < i ==> rows@[j].name() != kind@,
        decreases 7 - i,
    {
        let d = rows[i];
        if crate::text::eq_chars(&k, &chars_of(d.kind_str())) {
            assert forall|e: DetectorKind| e.name() == kind@ implies e.covers(loc) == d.covers(loc) by {
                lemma_detector_name_injective(e, d);
            }
            return d.covers_exec(loc);
        }
        i = i + 1;
    }
    assert forall|d: DetectorKind| d.name() != kind@ by {
        match d {
            DetectorKind::SupersededButUnlinked => assert(rows@[0] == d),
            DetectorKind::DanglingLink => assert(rows@[1] == d),
            DetectorKind::RoomTouching => assert(rows@[2] == d),
            DetectorKind::DescriptionBodyDrift => assert(rows@[3] == d),
            DetectorKind::StaleStateOverLore => assert(rows@[4] == d),
            DetectorKind::WorkaroundVsPlan => assert(rows@[5] == d),
            DetectorKind::AppendOnlyViolation => assert(rows@[6] == d),
        }
    }
    true
}

/// The route a store's findings take: the per-user store is edited in place,
/// the repo log only appended to.
pub open spec fn route_for(loc: StoreLoc) -> Route {
    match loc {
        StoreLoc::PerUser => Route::Edit,
        StoreLoc::Repo => Route::Append,
    }
}

/// The operator imperative for a route. The route decides the leading verb
/// and the anti-action tail; `goal` is the detector's fix, phrased to follow
/// either frame's "to".
pub open spec fn spec_suggestion(route: Route, slug: Seq<char>, goal: Seq<char>) -> Seq<char> {
    match route {
        Route::Edit => "Edit the per-user entry `"@ + slug + "` in place to "@ + goal
            + ". Do not append to the repo log."@,
        Route::Append => "Append a new dated entry to the repo MEMORY.md to "@ + goal
            + ". Do not edit the existing entry in place."@,
    }
}

pub fn suggestion_for(route: Route, slug: &str, goal: &str) -> (s: String)
    ensures
        s@ == spec_suggestion(route, slug@, goal@),
{
    match route {
        Route::Edit => {
            let mut s = String::from_str("Edit the per-user entry `");
            s.append(slug);
            s.append("` in place to ");
            s.append(goal);
            s.append(". Do not append to the repo log.");
            s
        },
        Route::Append => {
            let mut s = String::from_str("Append a new dated entry to the repo MEMORY.md to ");
            s.append(goal);
            s.append(". Do not edit the existing entry in place.");
            s
        },
    }
}

/// A detected finding: the entry, its store, the detector class, the route,
/// the confidence, the dangling-link absence state (empty for other kinds),
/// the operator-facing explanation and the route-carrying imperative.
#[derive(Clone, Debug, PartialEq, Eq)]
pub struct Finding {
    pub entry_slug: String,
    pub store: StoreLoc,
    pub kind: String,
    pub route: Route,
    pub confidence: Confidence,
    pub state: String,
    pub explanation: String,
    pub suggestion: String,
}

/// A finding as text values.
pub struct FindingView {
    pub entry_slug: Seq<char>,
    pub store: StoreLoc,
    pub kind: Seq<char>,
    pub route: Route,
    pub confidence: Confidence,
    pub state: Seq<char>,
    pub explanation: Seq<char>,
    pub suggestion: Seq<char>,
}

impl View for Finding {
    type V = FindingView;

    open spec fn view(&self) -> FindingView {
        FindingView {
            entry_slug: self.entry_slug@,
            store: self.store,
            kind: self.kind@,
            route: self.route,
            confidence: self.confidence,
            state: self.state@,
            explanation: self.explanation@,
            suggestion: self.suggestion@,
        }
    }
}

pub open spec fn finding_views(v: Seq<Finding>) -> Seq<FindingView> {
    v.map_values(|f: Finding| f@)
}

/// The detector engine's input: one entry plus its store context. Links
/// resolve against `known_slugs`, the union of the slugs of both stores.
pub struct DetectorInput<'a> {
    pub slug: String,
    pub description: String,
    pub body: String,
    pub superseded_by: String,
    pub entry_type: EntryType,
    pub store: StoreLoc,
    pub known_slugs: &'a Vec<String>,
    pub tier: TierState,
    /// The tier marker's provenance (stamp or retirement date and author),
    /// empty when the marker is absent.
    pub tier_provenance: &'a str,
    /// Whether an initialized per-user store is present on this machine.
    pub store_present: bool,
}

/// A detector input as values.
pub struct InputView {
    pub slug: Seq<char>,
    pub description: Seq<char>,
    pub body: Seq<char>,
    pub superseded_by: Seq<char>,
    pub entry_type: EntryType,
    pub store: StoreLoc,
    pub known: Seq<Seq<char>>,
    pub tier: TierState,
    pub provenance: Seq<char>,
    pub store_present: bool,
}

impl<'a> View for DetectorInput<'a> {
    type V = InputView;

    open spec fn view(&self) -> InputView {
        InputView {
            slug: self.slug@,
            description: self.description@,
            body: self.body@,
            superseded_by: self.superseded_by@,
            entry_type: self.entry_type,
            store: self.store,
            known: string_views(self.known_slugs@),
            tier: self.tier,
            provenance: self.tier_provenance@,
            store_present: self.store_present,
        }
    }
}

impl<'a> DetectorInput<'a> {
    pub fn route_for(loc: StoreLoc) -> (r: Route)
        ensures
            r == route_for(loc),
    {
        match loc {
            StoreLoc::PerUser => Route::Edit,
            StoreLoc::Repo => Route::Append,
        }
    }
}


// ---------------------------------------------------------------------------
// Link and reference extraction.
// ---------------------------------------------------------------------------

/// A slug: `[a-z0-9-]+`.
pub open spec fn is_slug(s: Seq<char>) -> bool {
    &&& s.len() > 0
    &&& forall|k: int| 0 <= k < s.len() ==> ('a' <= #[trigger] s[k] <= 'z' || '0' <= s[k] <= '9' || s[k] == '-')
}

pub fn is_slug_exec(s: &[char]) -> (b: bool)
    ensures
        b == is_slug(s@),
{
    if s.len() == 0 {
        return false;
    }
    let mut k: usize = 0;
    while k < s.len()
        invariant
            k <= s@.len(),
            forall|m: int| 0 <= m < k ==> ('a' <= #[trigger] s@[m] <= 'z' || '0' <= s@[m] <= '9' || s@[m] == '-'),
        decreases s.len() - k,
    {
        let c = s[k];
        if !(('a' <= c && c <= 'z') || ('0' <= c && c <= '9') || c == '-') {
            return false;
        }
        k = k + 1;
    }
    true
}

/// The first `]]` at or after `j`.
pub open spec fn close_from(s: Seq<char>, j: int) -> Option<int>
    decreases s.len() - j,
{
    if j < 0 || j + 1 >= s.len() {
        None
    } else if s[j] == ']' && s[j + 1] == ']' {
        Some(j)
    } else {
        close_from(s, j + 1)
    }
}

pub proof fn lemma_close_from(s: Seq<char>, j: int)
    ensures
        close_from(s, j) matches Some(k) ==> j <= k && k + 1 < s.len() && s[k] == ']' && s[k + 1] == ']',
    decreases s.len() - j,
{
    if !(j < 0 || j + 1 >= s.len()) && !(s[j] == ']' && s[j + 1] == ']') {
        lemma_close_from(s, j + 1);
    }
}

/// The `[[slug]]` links from position `i` on, in text order, duplicates kept:
/// a `[[` opens a link that the next `]]` closes, and the text between them
/// counts when it is a slug; a `[[` with no `]]` after it opens nothing.
pub open spec fn wiki_links_from(s: Seq<char>, i: int) -> Seq<Seq<char>>
    decreases s.len() - i,
{
    if i < 0 || i + 1 >= s.len() {
        Seq::empty()
    } else if s[i] == '[' && s[i + 1] == '[' && close_from(s, i + 2) is Some {
        let j = close_from(s, i + 2)->0;
        proof {
            lemma_close_from(s, i + 2);
        }
        let inner = s.subrange(i + 2, j);
        (if is_slug(inner) {
            seq![inner]
        } else {
            Seq::empty()
        }) + wiki_links_from(s, j + 2)
    } else {
        wiki_links_from(s, i + 1)
    }
}

pub open spec fn wiki_links(s: Seq<char>) -> Seq<Seq<char>> {
    wiki_links_from(s, 0)
}

/// Every `[[slug]]` link in a body, in text order, duplicates included.
pub fn extract_wiki_links(body: &str) -> (out: Vec<String>)
    ensures
        string_views(out@) == wiki_links(body@),
{
    let s = chars_of(body);
    let n = s.len();
    let mut out: Vec<String> = Vec::new();
    let mut i: usize = 0;
    while n > 0 && i < n - 1
        invariant
            n == s@.len(),
            s@ == body@,
            i <= n,
            string_views(out@) + wiki_links_from(s@, i as int) == wiki_links(s@),
        decreases n - i,
    {
        if s[i] == '[' && s[i + 1] == '[' {
            let start = i + 2;
            let mut j = start;
            while j < n - 1 && !(s[j] == ']' && s[j + 1] == ']')
                invariant
                    n == s@.len(),
                    n >= 2,
                    start <= j <= n,
                    close_from(s@, start as int) == close_from(s@, j as int),
                decreases n - j,
            {
                j = j + 1;
            }
            if j < n - 1 {
                let inner = slice(&s, start, j);
                let ghost before = out@;
                if is_slug_exec(&inner) {
                    out.push(string_of(&inner));
                }
                proof {
                    assert(close_from(s@, start as int) == Some(j as int));
                    if is_slug(inner@) {
                        assert(string_views(out@) =~= string_views(before) + seq![inner@]);
                    } else {
                        assert(string_views(out@) =~= string_views(before));
                    }
                    assert(string_views(out@) + wiki_links_from(s@, j + 2) =~= string_views(before)
                        + wiki_links_from(s@, i as int));
                }
                i = j + 2;
                continue;
            }
            assert(close_from(s@, start as int) is None);
        }
        i = i + 1;
    }
    assert(wiki_links_from(s@, i as int) =~= Seq::<Seq<char>>::empty());
    assert(string_views(out@) =~= wiki_links(s@));
    out
}

/// The end of the run of ASCII digits starting at `j`.
pub open spec fn digits_end(s: Seq<char>, j: int) -> int
    decreases s.len() - j,
{
    if 0 <= j < s.len() && is_ascii_digit(s[j]) {
        digits_end(s, j + 1)
    } else {
        j
    }
}

pub proof fn lemma_digits_end(s: Seq<char>, j: int)
    requires
        0 <= j <= s.len(),
    ensures
        j <= digits_end(s, j) <= s.len(),
        forall|k: int| j <= k < digits_end(s, j) ==> is_ascii_digit(#[trigger] s[k]),
        digits_end(s, j) < s.len() ==> !is_ascii_digit(s[digits_end(s, j)]),
    decreases s.len() - j,
{
    if 0 <= j < s.len() && is_ascii_digit(s[j]) {
        lemma_digits_end(s, j + 1);
    }
}

pub open spec fn starts_room(s: Seq<char>, i: int) -> bool {
    occurs_at(s, "call/"@, i) || occurs_at(s, "plan/"@, i)
}

/// The `call/NNNN` and `plan/NNNN` references from position `i` on, in text
/// order: the room prefix and the digit run after it; a prefix with no digit
/// after it is skipped whole.
pub open spec fn room_refs_from(s: Seq<char>, i: int) -> Seq<Seq<char>>
    decreases s.len() - i,
{
    if i < 0 || i >= s.len() {
        Seq::empty()
    } else if starts_room(s, i) {
        proof {
            reveal_strlit("call/");
            reveal_strlit("plan/");
            lemma_digits_end(s, i + 5);
        }
        let e = digits_end(s, i + 5);
        if e > i + 5 {
            seq![s.subrange(i, e)] + room_refs_from(s, e)
        } else {
            room_refs_from(s, i + 5)
        }
    } else {
        room_refs_from(s, i + 1)
    }
}

pub open spec fn room_refs(s: Seq<char>) -> Seq<Seq<char>> {
    room_refs_from(s, 0)
}

/// Every `call/NNNN` or `plan/NNNN` reference in a body, in text order.
pub fn extract_room_refs(body: &str) -> (out: Vec<String>)
    ensures
        string_views(out@) == room_refs(body@),
{
    let s = chars_of(body);
    let n = s.len();
    let call = chars_of("call/");
    let plan = chars_of("plan/");
    proof {
        reveal_strlit("call/");
        reveal_strlit("plan/");
    }
    let mut out: Vec<String> = Vec::new();
    let mut i: usize = 0;
    while i < n
        invariant
            n == s@.len(),
            s@ == body@,
            call@ == "call/"@,
            plan@ == "plan/"@,
            call@.len() == 5,
            plan@.len() == 5,
            i <= n,
            string_views(out@) + room_refs_from(s@, i as int) == room_refs(s@),
        decreases n - i,
    {
        if !(occurs_at_exec(&s, &call, i) || occurs_at_exec(&s, &plan, i)) {
            i = i + 1;
            continue;
        }
        let num_start = i + 5;
        let mut j = num_start;
        proof {
            lemma_digits_end(s@, num_start as int);
        }
        while j < n && s[j] >= '0' && s[j] <= '9'
            invariant
                n == s@.len(),
                num_start <= j <= n,
                digits_end(s@, num_start as int) == digits_end(s@, j as int),
            decreases n - j,
        {
            j = j + 1;
        }
        if j > num_start {
            let ghost before = out@;
            let r = slice(&s, i, j);
            out.push(string_of(&r));
            proof {
                assert(string_views(out@) =~= string_views(before) + seq![s@.subrange(i as int, j as int)]);
            }
            i = j;
        } else {
            i = num_start;
        }
    }
    assert(room_refs_from(s@, i as int) =~= Seq::<Seq<char>>::empty());
    assert(string_views(out@) =~= room_refs(s@));
    out
}


// ---------------------------------------------------------------------------
// The single-entry detectors.
// ---------------------------------------------------------------------------

pub open spec fn opt_view(r: Option<Finding>) -> Option<FindingView> {
    match r {
        Some(f) => Some(f@),
        None => None,
    }
}

pub open spec fn link_text(slug: Seq<char>) -> Seq<char> {
    "[["@ + slug + "]]"@
}

/// Superseded-but-unlinked: the entry names a successor, and its body carries
/// no forward `[[successor]]` link.
pub open spec fn spec_superseded_unlinked(i: InputView) -> Option<FindingView> {
    let target = trim(i.superseded_by);
    if target.len() == 0 || contains(i.body, link_text(target)) {
        None
    } else {
        let route = route_for(i.store);
        Some(FindingView {
            entry_slug: i.slug,
            store: i.store,
            kind: "superseded-but-unlinked"@,
            route,
            confidence: Confidence::Confirmed,
            state: Seq::empty(),
            explanation: "superseded by `"@ + target + "` but no forward link `[["@ + target
                + "]]` in the body"@,
            suggestion: spec_suggestion(
                route,
                i.slug,
                "record that it is superseded by `"@ + target + "` with a forward `[["@ + target
                    + "]]` link"@,
            ),
        })
    }
}

pub fn detect_superseded_unlinked(input: &DetectorInput) -> (r: Option<Finding>)
    ensures
        opt_view(r) == spec_superseded_unlinked(input@),
{
    let target = trim_exec(&chars_of(input.superseded_by.as_str()));
    if target.len() == 0 {
        return None;
    }
    let link = concat(&concat(&chars_of("[["), &target), &chars_of("]]"));
    if contains_exec(&chars_of(input.body.as_str()), &link) {
        return None;
    }
    let t = string_of(&target);
    let route = DetectorInput::route_for(input.store);
    let mut explanation = String::from_str("superseded by `");
    explanation.append(t.as_str());
    explanation.append("` but no forward link `[[");
    explanation.append(t.as_str());
    explanation.append("]]` in the body");
    let mut goal = String::from_str("record that it is superseded by `");
    goal.append(t.as_str());
    goal.append("` with a forward `[[");
    goal.append(t.as_str());
    goal.append("]]` link");
    let suggestion = suggestion_for(route, input.slug.as_str(), goal.as_str());
    Some(Finding {
        entry_slug: input.slug.clone(),
        store: input.store,
        kind: String::from_str("superseded-but-unlinked"),
        route,
        confidence: Confidence::Confirmed,
        state: String::new(),
        explanation,
        suggestion,
    })
}

/// The first link that names no known slug.
pub open spec fn first_unknown(links: Seq<Seq<char>>, known: Seq<Seq<char>>) -> Option<Seq<char>>
    decreases links.len(),
{
    if links.len() == 0 {
        None
    } else if !known.contains(links[0]) {
        Some(links[0])
    } else {
        first_unknown(links.drop_first(), known)
    }
}

/// The dangling-link finding for an unresolved link. What it means depends
/// on the tier marker and on whether the per-user store is present here.
pub open spec fn spec_dangling_finding(i: InputView, link: Seq<char>) -> FindingView {
    let route = route_for(i.store);
    let (confidence, state, explanation, suggestion) = match (i.tier, i.store_present) {
        (TierState::Stamped, false) => (
            Confidence::ReviewPrompt,
            "uninitialized-here"@,
            "review prompt: body links `[["@ + link
                + "]]`, which resolves in neither store present on this machine (tier marker: stamped "@
                + i.provenance + "; per-user store absent here)"@,
            "Leave the `[["@ + link
                + "]]` link standing and report it. If this machine should carry the per-user store, the operator initializes or seeds it; the link may resolve on the machine that carries the store. Do not drop the link on this machine's evidence alone; do not edit the entry in place."@,
        ),
        (TierState::Retired, _) => (
            Confidence::Confirmed,
            "tier-unused"@,
            "body links `[["@ + link
                + "]]`, which resolves in neither the repo log nor the per-user tier (tier marker: retired "@
                + i.provenance + ")"@,
            spec_suggestion(
                route,
                i.slug,
                "resolve the broken `[["@ + link
                    + "]]` reference (fix the slug, or drop the link with the operator's confirmation)"@,
            )
                + " To re-opt into the per-user tier instead, the operator appends a correction that records the decision, removes the retired marker, and lets the next dream run re-stamp; initialization and stamping are never the auditing agent's act."@,
        ),
        (TierState::Absent, false) => (
            Confidence::Confirmed,
            "tier-unused"@,
            "body links `[["@ + link
                + "]]`, which resolves in neither the repo log nor the per-user tier (tier marker: absent; the tier was never initialized)"@,
            "If a per-user store is intended, the operator initializes it and commits the tier marker; these findings then re-tier advisory. Otherwise fix the slug or drop the forward `[["@
                + link
                + "]]` link, with the operator's confirmation, via a new appended correction to the repo MEMORY.md. Never edit the existing entry in place; initialization and stamping are never the auditing agent's act."@,
        ),
        (_, true) => (
            Confidence::ReviewPrompt,
            "entry-missing"@,
            "review prompt: body links `[["@ + link
                + "]]`, which resolves in neither the repo log nor the per-user store on this machine"@,
            spec_suggestion(
                route,
                i.slug,
                "resolve the broken `[["@ + link + "]]` reference (create the entry `"@ + link
                    + "` or correct the link)"@,
            ),
        ),
    };
    FindingView {
        entry_slug: i.slug,
        store: i.store,
        kind: "dangling-link"@,
        route,
        confidence,
        state,
        explanation,
        suggestion,
    }
}

/// Dangling-link: the body's first `[[slug]]` that resolves in neither store.
pub open spec fn spec_dangling_link(i: InputView) -> Option<FindingView> {
    match first_unknown(wiki_links(i.body), i.known) {
        Some(link) => Some(spec_dangling_finding(i, link)),
        None => None,
    }
}

fn known_contains(known: &Vec<String>, s: &String) -> (b: bool)
    ensures
        b == string_views(known@).contains(s@),
{
    let mut k: usize = 0;
    while k < known.len()
        invariant
            k <= known@.len(),
            forall|j: int| 0 <= j < k ==> known@[j]@ != s@,
        decreases known.len() - k,
    {
        if known[k] == *s {
            assert(string_views(known@)[k as int] == s@);
            return true;
        }
        k = k + 1;
    }
    assert forall|j: int| 0 <= j < string_views(known@).len() implies string_views(known@)[j] != s@ by {
        assert(known@[j]@ != s@);
    }
    false
}

fn dangling_finding(input: &DetectorInput, link: &String) -> (f: Finding)
    ensures
        f@ == spec_dangling_finding(input@, link@),
{
    let route = DetectorInput::route_for(input.store);
    let l = link.as_str();
    match (input.tier, input.store_present) {
        (TierState::Stamped, false) => {
            let mut explanation = String::from_str("review prompt: body links `[[");
            explanation.append(l);
            explanation.append("]]`, which resolves in neither store present on this machine (tier marker: stamped ");
            explanation.append(input.tier_provenance);
            explanation.append("; per-user store absent here)");
            let mut suggestion = String::from_str("Leave the `[[");
            suggestion.append(l);
            suggestion.append("]]` link standing and report it. If this machine should carry the per-user store, the operator initializes or seeds it; the link may resolve on the machine that carries the store. Do not drop the link on this machine's evidence alone; do not edit the entry in place.");
            Finding {
                entry_slug: input.slug.clone(),
                store: input.store,
                kind: String::from_str("dangling-link"),
                route,
                confidence: Confidence::ReviewPrompt,
                state: String::from_str("uninitialized-here"),
                explanation,
                suggestion,
            }
        },
        (TierState::Retired, _) => {
            let mut explanation = String::from_str("body links `[[");
            explanation.append(l);
            explanation.append("]]`, which resolves in neither the repo log nor the per-user tier (tier marker: retired ");
            explanation.append(input.tier_provenance);
            explanation.append(")");
            let mut goal = String::from_str("resolve the broken `[[");
            goal.append(l);
            goal.append("]]` reference (fix the slug, or drop the link with the operator's confirmation)");
            let mut suggestion = suggestion_for(route, input.slug.as_str(), goal.as_str());
            suggestion.append(" To re-opt into the per-user tier instead, the operator appends a correction that records the decision, removes the retired marker, and lets the next dream run re-stamp; initialization and stamping are never the auditing agent's act.");
            Finding {
                entry_slug: input.slug.clone(),
                store: input.store,
                kind: String::from_str("dangling-link"),
                route,
                confidence: Confidence::Confirmed,
                state: String::from_str("tier-unused"),
                explanation,
                suggestion,
            }
        },
        (TierState::Absent, false) => {
            let mut explanation = String::from_str("body links `[[");
            explanation.append(l);
            explanation.append("]]`, which resolves in neither the repo log nor the per-user tier (tier marker: absent; the tier was never initialized)");
            let mut suggestion = String::from_str("If a per-user store is intended, the operator initializes it and commits the tier marker; these findings then re-tier advisory. Otherwise fix the slug or drop the forward `[[");
            suggestion.append(l);
            suggestion.append("]]` link, with the operator's confirmation, via a new appended correction to the repo MEMORY.md. Never edit the existing entry in place; initialization and stamping are never the auditing agent's act.");
            Finding {
                entry_slug: input.slug.clone(),
                store: input.store,
                kind: String::from_str("dangling-link"),
                route,
                confidence: Confidence::Confirmed,
                state: String::from_str("tier-unused"),
                explanation,
                suggestion,
            }
        },
        (_, true) => {
            let mut explanation = String::from_str("review prompt: body links `[[");
            explanation.append(l);
            explanation.append("]]`, which resolves in neither the repo log nor the per-user store on this machine");
            let mut goal = String::from_str("resolve the broken `[[");
            goal.append(l);
            goal.append("]]` reference (create the entry `");
            goal.append(l);
            goal.append("` or correct the link)");
            let suggestion = suggestion_for(route, input.slug.as_str(), goal.as_str());
            Finding {
                entry_slug: input.slug.clone(),
                store: input.store,
                kind: String::from_str("dangling-link"),
                route,
                confidence: Confidence::ReviewPrompt,
                state: String::from_str("entry-missing"),
                explanation,
                suggestion,
            }
        },
    }
}

pub fn detect_dangling_link(input: &DetectorInput) -> (r: Option<Finding>)
    ensures
        opt_view(r) == spec_dangling_link(input@),
{
    let links = extract_wiki_links(input.body.as_str());
    let ghost all = string_views(links@);
    assert(all.subrange(0, all.len() as int) =~= all);
    let mut k: usize = 0;
    while k < links.len()
        invariant
            k <= links@.len(),
            all == string_views(links@),
            all == wiki_links(input@.body),
            first_unknown(all, input@.known) == first_unknown(all.subrange(k as int, all.len() as int), input@.known),
        decreases links.len() - k,
    {
        let ghost rest = all.subrange(k as int, all.len() as int);
        assert(rest[0] == links@[k as int]@);
        if !known_contains(input.known_slugs, &links[k]) {
            return Some(dangling_finding(input, &links[k]));
        }
        assert(rest.drop_first() =~= all.subrange(k + 1, all.len() as int));
        k = k + 1;
    }
    assert(all.subrange(k as int, all.len() as int) =~= Seq::<Seq<char>>::empty());
    None
}

/// Room-touching: the body cites a `call/NNNN` or `plan/NNNN` record. Until
/// the applied-receipts cross-check lands this is a review prompt.
pub open spec fn spec_room_touching(i: InputView) -> Option<FindingView> {
    let refs = room_refs(i.body);
    if refs.len() == 0 {
        None
    } else {
        let r = refs[0];
        Some(FindingView {
            entry_slug: i.slug,
            store: i.store,
            kind: "room-touching"@,
            route: route_for(i.store),
            confidence: Confidence::ReviewPrompt,
            state: Seq::empty(),
            explanation: "review prompt: body cites `"@ + r
                + "`; whether the spine superseded it is unverified until the applied-receipts cross-check lands"@,
            suggestion: "Leave a review note: confirm whether the cited record `"@ + r
                + "` is still current. Only after operator confirmation is the record marked `Status: superseded` via an audited MADR commit; do not act on this prompt alone. Do not edit the memory entry or append to the log."@,
        })
    }
}

pub fn detect_room_touching(input: &DetectorInput) -> (r: Option<Finding>)
    ensures
        opt_view(r) == spec_room_touching(input@),
{
    let refs = extract_room_refs(input.body.as_str());
    if refs.len() == 0 {
        return None;
    }
    let room_ref = refs[0].as_str();
    assert(room_ref@ == room_refs(input@.body)[0]);
    let mut explanation = String::from_str("review prompt: body cites `");
    explanation.append(room_ref);
    explanation.append("`; whether the spine superseded it is unverified until the applied-receipts cross-check lands");
    let mut suggestion = String::from_str("Leave a review note: confirm whether the cited record `");
    suggestion.append(room_ref);
    suggestion.append("` is still current. Only after operator confirmation is the record marked `Status: superseded` via an audited MADR commit; do not act on this prompt alone. Do not edit the memory entry or append to the log.");
    Some(Finding {
        entry_slug: input.slug.clone(),
        store: input.store,
        kind: String::from_str("room-touching"),
        route: DetectorInput::route_for(input.store),
        confidence: Confidence::ReviewPrompt,
        state: String::new(),
        explanation,
        suggestion,
    })
}


/// The token that the description denies and the body asserts, after the
/// first `neg` in the description: the first word of what follows it.
pub open spec fn drift_token(d: Seq<char>, b: Seq<char>, neg: Seq<char>) -> Option<Seq<char>> {
    match find_first(d, neg) {
        None => None,
        Some(idx) => {
            let tail = trim(d.subrange(idx + neg.len(), d.len() as int));
            let token = first_word(tail);
            if tail.len() > 0 && token.len() > 0 && utf8_len(token) >= 3 && contains(b, token) {
                Some(token)
            } else {
                None
            }
        },
    }
}

pub open spec fn spec_drift_finding(i: InputView, neg: Seq<char>, token: Seq<char>) -> FindingView {
    let route = route_for(i.store);
    FindingView {
        entry_slug: i.slug,
        store: i.store,
        kind: "description-body-drift"@,
        route,
        confidence: Confidence::Confirmed,
        state: Seq::empty(),
        explanation: "description says `"@ + neg + token + "` but the body asserts `"@ + token + "`"@,
        suggestion: spec_suggestion(
            route,
            i.slug,
            "bring the `description:` line back in line with what the body now asserts"@,
        ),
    }
}

/// Description-body-drift (heuristic): the lowercased description says
/// `not X` (or `no X`) and the lowercased body contains `X`; `X` is the word
/// after the first `not `, else after the first `no `, of at least three
/// bytes.
pub open spec fn spec_description_body_drift(i: InputView) -> Option<FindingView> {
    match drift_of(lowercase(i.description), lowercase(i.body)) {
        Some((neg, t)) => Some(spec_drift_finding(i, neg, t)),
        None => None,
    }
}

/// The denial a lowercased description makes of what the lowercased body
/// asserts: `not ` and its token, else `no ` and its token.
pub open spec fn drift_of(d: Seq<char>, b: Seq<char>) -> Option<(Seq<char>, Seq<char>)> {
    match drift_token(d, b, "not "@) {
        Some(t) => Some(("not "@, t)),
        None => match drift_token(d, b, "no "@) {
            Some(t) => Some(("no "@, t)),
            None => None,
        },
    }
}

/// The drift between a lowercased description and a lowercased body: the
/// negation and the token it denies.
pub fn description_drift(lowered_description: &str, lowered_body: &str) -> (r: Option<(String, String)>)
    ensures
        match r {
            Some((neg, t)) => drift_of(lowered_description@, lowered_body@) == Some((neg@, t@)),
            None => drift_of(lowered_description@, lowered_body@) is None,
        },
{
    let d = chars_of(lowered_description);
    let b = chars_of(lowered_body);
    let not_ = chars_of("not ");
    proof {
        reveal_strlit("not ");
        reveal_strlit("no ");
    }
    match drift_token_exec(&d, &b, &not_) {
        Some(t) => Some((String::from_str("not "), string_of(&t))),
        None => {
            let no_ = chars_of("no ");
            match drift_token_exec(&d, &b, &no_) {
                Some(t) => Some((String::from_str("no "), string_of(&t))),
                None => None,
            }
        },
    }
}

fn drift_token_exec(d: &Vec<char>, b: &Vec<char>, neg: &Vec<char>) -> (r: Option<Vec<char>>)
    ensures
        match r {
            Some(t) => drift_token(d@, b@, neg@) == Some(t@),
            None => drift_token(d@, b@, neg@) is None,
        },
{
    match find(d, neg) {
        None => None,
        Some(idx) => {
            proof {
                lemma_find_first(d@, neg@, idx as int);
                assert(occurs_at(d@, neg@, idx as int));
            }
            let dl = d.len();
            assert(idx + neg@.len() <= dl);
            let tail = trim_exec(&slice(d, idx + neg.len(), dl));
            let token = first_word_exec(&tail);
            if tail.len() > 0 && token.len() > 0 && utf8_len_at_least(&token, 3) && contains_exec(b, &token) {
                Some(token)
            } else {
                None
            }
        },
    }
}

fn drift_finding(input: &DetectorInput, neg: &str, token: &Vec<char>) -> (f: Finding)
    ensures
        f@ == spec_drift_finding(input@, neg@, token@),
{
    let route = DetectorInput::route_for(input.store);
    let t = string_of(token);
    let mut explanation = String::from_str("description says `");
    explanation.append(neg);
    explanation.append(t.as_str());
    explanation.append("` but the body asserts `");
    explanation.append(t.as_str());
    explanation.append("`");
    let suggestion = suggestion_for(
        route,
        input.slug.as_str(),
        "bring the `description:` line back in line with what the body now asserts",
    );
    Finding {
        entry_slug: input.slug.clone(),
        store: input.store,
        kind: String::from_str("description-body-drift"),
        route,
        confidence: Confidence::Confirmed,
        state: String::new(),
        explanation,
        suggestion,
    }
}

pub fn detect_description_body_drift(input: &DetectorInput) -> (r: Option<Finding>)
    ensures
        opt_view(r) == spec_description_body_drift(input@),
{
    let d = to_lower(input.description.as_str());
    let b = to_lower(input.body.as_str());
    match description_drift(d.as_str(), b.as_str()) {
        Some((neg, t)) => Some(drift_finding(input, neg.as_str(), &chars_of(t.as_str()))),
        None => None,
    }
}

/// `needle` occurs in `haystack` as a whole word: the characters around the
/// occurrence, where there are any, are not ASCII letters or digits.
pub open spec fn contains_word(haystack: Seq<char>, needle: Seq<char>) -> bool {
    exists|k: int|
        #![trigger occurs_at(haystack, needle, k)]
        occurs_at(haystack, needle, k) && (k == 0 || !is_ascii_alnum(haystack[k - 1])) && (k
            + needle.len() == haystack.len() || !is_ascii_alnum(haystack[k + needle.len()]))
}

fn ascii_alnum(c: char) -> (b: bool)
    ensures
        b == is_ascii_alnum(c),
{
    ('0' <= c && c <= '9') || ('a' <= c && c <= 'z') || ('A' <= c && c <= 'Z')
}

fn contains_word_exec(h: &Vec<char>, n: &Vec<char>) -> (b: bool)
    ensures
        b == contains_word(h@, n@),
{
    if n.len() > h.len() {
        return false;
    }
    let hl = h.len();
    let last = hl - n.len();
    let mut k: usize = 0;
    while k < last
        invariant
            hl == h@.len(),
            last + n@.len() == h@.len(),
            k <= last,
            forall|j: int|
                #![trigger occurs_at(h@, n@, j)]
                0 <= j < k ==> !(occurs_at(h@, n@, j) && (j == 0 || !is_ascii_alnum(h@[j - 1]))
                    && (j + n@.len() == h@.len() || !is_ascii_alnum(h@[j + n@.len()]))),
        decreases last - k,
    {
        if word_at(h, n, k) {
            return true;
        }
        k = k + 1;
    }
    if word_at(h, n, last) {
        return true;
    }
    assert forall|j: int| #![trigger occurs_at(h@, n@, j)]
        occurs_at(h@, n@, j) implies !((j == 0 || !is_ascii_alnum(h@[j - 1])) && (j + n@.len()
        == h@.len() || !is_ascii_alnum(h@[j + n@.len()]))) by {
        assert(j <= last);
    }
    false
}

fn word_at(h: &Vec<char>, n: &Vec<char>, k: usize) -> (b: bool)
    requires
        k + n@.len() <= h@.len(),
    ensures
        b == (occurs_at(h@, n@, k as int) && (k == 0 || !is_ascii_alnum(h@[k - 1])) && (k + n@.len()
            == h@.len() || !is_ascii_alnum(h@[k + n@.len()]))),
{
    if !occurs_at_exec(h, n, k) {
        return false;
    }
    let before_ok = k == 0 || !ascii_alnum(h[k - 1]);
    let hl = h.len();
    assert(k + n@.len() <= hl);
    let end = k + n.len();
    let after_ok = end == h.len() || !ascii_alnum(h[end]);
    before_ok && after_ok
}

/// The state-complete words.
pub open spec fn done_words() -> Seq<Seq<char>> {
    seq!["done"@, "shipped"@, "complete"@, "landed"@, "resolved"@, "finished"@, "closed"@]
}

/// A measured value: an ASCII digit followed by a character that is neither
/// a digit nor whitespace (a unit: `ms`, `%`, `x`).
pub open spec fn has_measured_lore(b: Seq<char>) -> bool {
    exists|k: int|
        0 <= k && k + 1 < b.len() && is_ascii_digit(#[trigger] b[k]) && !is_ascii_digit(b[k + 1])
            && !is_ws(b[k + 1])
}

/// Stale-state-over-lore (heuristic): a `State` entry whose lowercased body
/// reads done (a state-complete word) and still carries measured lore.
pub open spec fn spec_stale_state_over_lore(i: InputView) -> Option<FindingView> {
    if i.entry_type == EntryType::State && done_with_lore(lowercase(i.body)) {
        let route = route_for(i.store);
        Some(FindingView {
            entry_slug: i.slug,
            store: i.store,
            kind: "stale-state-over-lore"@,
            route,
            confidence: Confidence::Confirmed,
            state: Seq::empty(),
            explanation: "State entry reads done but carries durable measured lore; mark the state superseded with a dated current-state block, do not delete the lore"@,
            suggestion: spec_suggestion(
                route,
                i.slug,
                "mark the state superseded with a dated current-state block, keeping the measured lore"@,
            ),
        })
    } else {
        None
    }
}

/// A lowercased body reads done (a state-complete word, as a whole word)
/// and carries measured lore.
pub open spec fn done_with_lore(b: Seq<char>) -> bool {
    (exists|w: int| 0 <= w < done_words().len() && #[trigger] contains_word(b, done_words()[w]))
        && has_measured_lore(b)
}

/// Whether a lowercased body reads done and still carries measured lore.
pub fn reads_done_with_lore(lowered_body: &str) -> (r: bool)
    ensures
        r == done_with_lore(lowered_body@),
{
    let b = chars_of(lowered_body);
    let words: [&str; 7] = ["done", "shipped", "complete", "landed", "resolved", "finished", "closed"];
    let ghost ws = done_words();
    let mut w: usize = 0;
    let mut has_done = false;
    while w < 7
        invariant
            ws == done_words(),
            words@.len() == 7,
            forall|j: int| 0 <= j < 7 ==> (#[trigger] words@[j])@ == ws[j],
            w <= 7,
            has_done == (exists|j: int| 0 <= j < w && #[trigger] contains_word(b@, ws[j])),
        decreases 7 - w,
    {
        if contains_word_exec(&b, &chars_of(words[w])) {
            has_done = true;
        }
        w = w + 1;
    }
    assert(ws.len() == 7);
    if !has_done {
        assert forall|j: int| 0 <= j < done_words().len() implies !#[trigger] contains_word(lowered_body@, done_words()[j]) by {
            assert(!contains_word(b@, ws[j]));
        }
        return false;
    }
    proof {
        let j = choose|j: int| 0 <= j < 7 && #[trigger] contains_word(b@, ws[j]);
        assert(contains_word(lowered_body@, done_words()[j]));
    }
    has_measured_lore_exec(&b)
}

fn has_measured_lore_exec(b: &Vec<char>) -> (r: bool)
    ensures
        r == has_measured_lore(b@),
{
    let mut k: usize = 0;
    while b.len() > 0 && k < b.len() - 1
        invariant
            k <= b@.len(),
            forall|j: int|
                0 <= j < k ==> !(j + 1 < b@.len() && is_ascii_digit(#[trigger] b@[j]) && !is_ascii_digit(b@[j + 1])
                    && !is_ws(b@[j + 1])),
        decreases b.len() - k,
    {
        let c = b[k];
        let d = b[k + 1];
        if '0' <= c && c <= '9' && !('0' <= d && d <= '9') && !char_is_ws(d) {
            return true;
        }
        k = k + 1;
    }
    false
}

pub fn detect_stale_state_over_lore(input: &DetectorInput) -> (r: Option<Finding>)
    ensures
        opt_view(r) == spec_stale_state_over_lore(input@),
{
    if input.entry_type != EntryType::State {
        return None;
    }
    let b = to_lower(input.body.as_str());
    if !reads_done_with_lore(b.as_str()) {
        return None;
    }
    let route = DetectorInput::route_for(input.store);
    let suggestion = suggestion_for(
        route,
        input.slug.as_str(),
        "mark the state superseded with a dated current-state block, keeping the measured lore",
    );
    Some(Finding {
        entry_slug: input.slug.clone(),
        store: input.store,
        kind: String::from_str("stale-state-over-lore"),
        route,
        confidence: Confidence::Confirmed,
        state: String::new(),
        explanation: String::from_str("State entry reads done but carries durable measured lore; mark the state superseded with a dated current-state block, do not delete the lore"),
        suggestion,
    })
}

pub open spec fn opt_seq(o: Option<FindingView>) -> Seq<FindingView> {
    match o {
        Some(f) => seq![f],
        None => Seq::empty(),
    }
}

pub open spec fn gated(d: DetectorKind, loc: StoreLoc, o: Option<FindingView>) -> Option<FindingView> {
    if d.covers(loc) {
        o
    } else {
        None
    }
}

/// The single-entry detectors over one entry, in declaration order, each run
/// only where the applicability table says its format fits.
pub open spec fn spec_detect(i: InputView) -> Seq<FindingView> {
    opt_seq(gated(DetectorKind::SupersededButUnlinked, i.store, spec_superseded_unlinked(i)))
        + opt_seq(gated(DetectorKind::DanglingLink, i.store, spec_dangling_link(i)))
        + opt_seq(gated(DetectorKind::RoomTouching, i.store, spec_room_touching(i)))
        + opt_seq(gated(DetectorKind::DescriptionBodyDrift, i.store, spec_description_body_drift(i)))
        + opt_seq(gated(DetectorKind::StaleStateOverLore, i.store, spec_stale_state_over_lore(i)))
}

fn push_opt(out: &mut Vec<Finding>, o: Option<Finding>)
    ensures
        finding_views(final(out)@) == finding_views(old(out)@) + opt_seq(opt_view(o)),
{
    let ghost before = out@;
    match o {
        Some(f) => {
            out.push(f);
            assert(finding_views(out@) =~= finding_views(before) + opt_seq(opt_view(o)));
        },
        None => {
            assert(finding_views(out@) =~= finding_views(before) + opt_seq(opt_view(o)));
        },
    }
}

/// The detector engine over one entry.
pub fn detect(input: &DetectorInput) -> (out: Vec<Finding>)
    ensures
        finding_views(out@) == spec_detect(input@),
{
    let mut out: Vec<Finding> = Vec::new();
    let loc = input.store;
    let ghost i = input@;
    assert(finding_views(out@) =~= Seq::<FindingView>::empty());
    if DetectorKind::SupersededButUnlinked.covers_exec(loc) {
        push_opt(&mut out, detect_superseded_unlinked(input));
    } else {
        push_opt(&mut out, None);
    }
    if DetectorKind::DanglingLink.covers_exec(loc) {
        push_opt(&mut out, detect_dangling_link(input));
    } else {
        push_opt(&mut out, None);
    }
    if DetectorKind::RoomTouching.covers_exec(loc) {
        push_opt(&mut out, detect_room_touching(input));
    } else {
        push_opt(&mut out, None);
    }
    if DetectorKind::DescriptionBodyDrift.covers_exec(loc) {
        push_opt(&mut out, detect_description_body_drift(input));
    } else {
        push_opt(&mut out, None);
    }
    if DetectorKind::StaleStateOverLore.covers_exec(loc) {
        push_opt(&mut out, detect_stale_state_over_lore(input));
    } else {
        push_opt(&mut out, None);
    }
    assert(finding_views(out@) =~= spec_detect(i));
    out
}


// ---------------------------------------------------------------------------
// The cross-entry detector.
// ---------------------------------------------------------------------------

/// `s[a..b]` is a maximal run of alphanumeric characters.
pub open spec fn is_alnum_run(s: Seq<char>, a: int, b: int) -> bool {
    &&& 0 <= a <= b <= s.len()
    &&& (a == 0 || !is_alnum(s[a - 1]))
    &&& (b == s.len() || !is_alnum(s[b]))
    &&& forall|k: int| a <= k < b ==> is_alnum(#[trigger] s[k])
}

/// A key term of a body: a maximal alphanumeric run of at least five bytes,
/// lowercased.
pub open spec fn is_key_term(body: Seq<char>, w: Seq<char>) -> bool {
    exists|a: int, b: int|
        #![trigger is_alnum_run(body, a, b)]
        is_alnum_run(body, a, b) && utf8_len(body.subrange(a, b)) >= 5 && lowercase(
            body.subrange(a, b),
        ) == w
}

pub open spec fn holds_term(terms: Seq<Vec<char>>, w: Seq<char>) -> bool {
    exists|k: int| 0 <= k < terms.len() && (#[trigger] terms[k])@ == w
}

proof fn lemma_run_end(s: Seq<char>, a: int, b: int, j: int)
    requires
        is_alnum_run(s, a, b),
        a <= j <= s.len(),
        forall|k: int| a <= k < j ==> is_alnum(#[trigger] s[k]),
        j == s.len() || !is_alnum(s[j]),
    ensures
        b == j,
{
    if b < j {
        assert(is_alnum(s[b]));
    } else if j < b {
        assert(is_alnum(s[j]));
    }
}

pub open spec fn key_term_before(s: Seq<char>, i: int, w: Seq<char>) -> bool {
    exists|a: int, b: int|
        #![trigger is_alnum_run(s, a, b)]
        a < i && is_alnum_run(s, a, b) && utf8_len(s.subrange(a, b)) >= 5 && lowercase(
            s.subrange(a, b),
        ) == w
}

/// No run that starts at `i` counts when the character there is not
/// alphanumeric: such a run is empty.
proof fn lemma_key_term_skip(s: Seq<char>, i: int, w: Seq<char>)
    requires
        0 <= i <= s.len(),
        i == s.len() || !is_alnum(s[i]),
    ensures
        key_term_before(s, i + 1, w) ==> key_term_before(s, i, w),
{
    if key_term_before(s, i + 1, w) {
        let (x, y) = choose|x: int, y: int|
            #![trigger is_alnum_run(s, x, y)]
            x < i + 1 && is_alnum_run(s, x, y) && utf8_len(s.subrange(x, y)) >= 5 && lowercase(
                s.subrange(x, y),
            ) == w;
        if x == i {
            if y > x {
                assert(is_alnum(s[x]));
            }
            assert(s.subrange(x, y).len() == 0);
        }
    }
}

/// The key terms of a body, each lowercased.
pub fn key_terms(body: &str) -> (out: Vec<Vec<char>>)
    ensures
        forall|w: Seq<char>| holds_term(out@, w) <==> is_key_term(body@, w),
{
    let s = chars_of(body);
    let n = s.len();
    let mut out: Vec<Vec<char>> = Vec::new();
    let mut i: usize = 0;
    while i < n
        invariant
            n == s@.len(),
            s@ == body@,
            i <= n,
            i == 0 || i == n || !is_alnum(s@[i - 1]),
            forall|w: Seq<char>| holds_term(out@, w) <==> #[trigger] key_term_before(s@, i as int, w),
        decreases n - i,
    {
        if !char_is_alnum(s[i]) {
            proof {
                assert forall|w: Seq<char>| #[trigger] key_term_before(s@, i + 1, w) == key_term_before(s@, i as int, w) by {
                    lemma_key_term_skip(s@, i as int, w);
                }
            }
            i = i + 1;
            continue;
        }
        let a = i;
        let mut j = i;
        while j < n && char_is_alnum(s[j])
            invariant
                n == s@.len(),
                a <= j <= n,
                forall|k: int| a <= k < j ==> is_alnum(#[trigger] s@[k]),
            decreases n - j,
        {
            j = j + 1;
        }
        let run = slice(&s, a, j);
        assert(is_alnum_run(s@, a as int, j as int));
        let long = utf8_len_at_least(&run, 5);
        let ghost before = out@;
        if long {
            let t = to_lower(string_of(&run).as_str());
            out.push(chars_of(t.as_str()));
        }
        proof {
            assert forall|w: Seq<char>| holds_term(out@, w) <==> #[trigger] key_term_before(s@, j as int, w) by {
                if holds_term(out@, w) {
                    let k = choose|k: int| 0 <= k < out@.len() && (#[trigger] out@[k])@ == w;
                    if k < before.len() {
                        assert(before[k] == out@[k]);
                        assert(holds_term(before, w));
                        assert(key_term_before(s@, a as int, w));
                        let (x, y) = choose|x: int, y: int|
                            #![trigger is_alnum_run(s@, x, y)]
                            x < a && is_alnum_run(s@, x, y) && utf8_len(s@.subrange(x, y)) >= 5 && lowercase(
                                s@.subrange(x, y),
                            ) == w;
                        assert(is_alnum_run(s@, x, y));
                    } else {
                        assert(is_alnum_run(s@, a as int, j as int));
                    }
                }
                if key_term_before(s@, j as int, w) {
                    let (x, y) = choose|x: int, y: int|
                        #![trigger is_alnum_run(s@, x, y)]
                        x < j && is_alnum_run(s@, x, y) && utf8_len(s@.subrange(x, y)) >= 5
                            && lowercase(s@.subrange(x, y)) == w;
                    if x < a {
                        assert(key_term_before(s@, a as int, w));
                        assert(holds_term(before, w));
                        let k = choose|k: int| 0 <= k < before.len() && (#[trigger] before[k])@ == w;
                        assert(out@[k] == before[k]);
                    } else if x == a {
                        lemma_run_end(s@, x, y, j as int);
                        assert(out@[out@.len() - 1]@ == w);
                    } else {
                        assert(is_alnum(s@[x - 1]));
                    }
                }
            }
        }
        if j < n {
            proof {
                assert forall|w: Seq<char>| #[trigger] key_term_before(s@, j + 1, w) == key_term_before(s@, j as int, w) by {
                    lemma_key_term_skip(s@, j as int, w);
                }
            }
            i = j + 1;
        } else {
            i = j;
        }
    }
    proof {
        assert forall|w: Seq<char>| holds_term(out@, w) <==> is_key_term(body@, w) by {
            if is_key_term(body@, w) {
                lemma_key_term_skip(s@, n as int, w);
                let (x, y) = choose|x: int, y: int|
                    #![trigger is_alnum_run(body@, x, y)]
                    is_alnum_run(body@, x, y) && utf8_len(body@.subrange(x, y)) >= 5 && lowercase(
                        body@.subrange(x, y),
                    ) == w;
                assert(is_alnum_run(s@, x, y));
                if x == n {
                    assert(s@.subrange(x, y).len() == 0);
                }
                assert(key_term_before(s@, n + 1, w));
            }
            if holds_term(out@, w) {
                assert(key_term_before(s@, n as int, w));
                let (x, y) = choose|x: int, y: int|
                    #![trigger is_alnum_run(s@, x, y)]
                    x < n && is_alnum_run(s@, x, y) && utf8_len(s@.subrange(x, y)) >= 5
                        && lowercase(s@.subrange(x, y)) == w;
                assert(is_alnum_run(body@, x, y));
            }
        }
    }
    out
}


/// Two bodies share a key term.
pub open spec fn shares_term(x: Seq<char>, y: Seq<char>) -> bool {
    exists|w: Seq<char>| #[trigger] is_key_term(x, w) && is_key_term(y, w)
}

/// `other` is a `Fact` entry of the same store that shares a key term with
/// the workaround `entry`, and neither links the other.
pub open spec fn is_plan_partner(entry: InputView, other: InputView) -> bool {
    &&& other.slug != entry.slug
    &&& other.entry_type == EntryType::Fact
    &&& other.store == entry.store
    &&& shares_term(entry.body, other.body)
    &&& !contains(entry.body, link_text(other.slug))
    &&& !contains(other.body, link_text(entry.slug))
}

pub open spec fn first_partner(entry: InputView, all: Seq<InputView>) -> Option<InputView>
    decreases all.len(),
{
    if all.len() == 0 {
        None
    } else if is_plan_partner(entry, all[0]) {
        Some(all[0])
    } else {
        first_partner(entry, all.drop_first())
    }
}

pub open spec fn spec_workaround_finding(entry: InputView, other_slug: Seq<char>) -> FindingView {
    let route = route_for(entry.store);
    FindingView {
        entry_slug: entry.slug,
        store: entry.store,
        kind: "workaround-vs-plan"@,
        route,
        confidence: Confidence::Confirmed,
        state: Seq::empty(),
        explanation: "Workaround entry shares a key term with Fact entry `"@ + other_slug
            + "` but neither cross-links the other; one may be a fix-of-the-moment the plan supersedes"@,
        suggestion: spec_suggestion(
            route,
            entry.slug,
            "cross-link this entry and `"@ + other_slug
                + "` with a `[[link]]`, or supersede whichever is stale"@,
        ),
    }
}

/// Workaround-vs-plan (heuristic, cross-entry): a `Workaround` entry and the
/// first `Fact` entry of the same store that shares a key term with it, with
/// no cross-link either way.
pub open spec fn spec_workaround_vs_plan(entry: InputView, all: Seq<InputView>) -> Option<FindingView> {
    if entry.entry_type != EntryType::Workaround {
        None
    } else {
        match first_partner(entry, all) {
            Some(o) => Some(spec_workaround_finding(entry, o.slug)),
            None => None,
        }
    }
}

pub open spec fn input_views<'a>(v: Seq<DetectorInput<'a>>) -> Seq<InputView> {
    v.map_values(|d: DetectorInput<'a>| d@)
}

/// Whether two lists of lowercased key terms hold a term in common.
pub fn shares_term_exec(x: &Vec<Vec<char>>, y: &Vec<Vec<char>>) -> (b: bool)
    ensures
        b == exists|w: Seq<char>| #[trigger] holds_term(x@, w) && holds_term(y@, w),
{
    let mut i: usize = 0;
    while i < x.len()
        invariant
            i <= x@.len(),
            forall|k: int| 0 <= k < i ==> !holds_term(y@, (#[trigger] x@[k])@),
        decreases x.len() - i,
    {
        let mut j: usize = 0;
        while j < y.len()
            invariant
                i < x@.len(),
                j <= y@.len(),
                forall|m: int| 0 <= m < j ==> (#[trigger] y@[m])@ != x@[i as int]@,
            decreases y.len() - j,
        {
            if eq_chars(&x[i], &y[j]) {
                assert(holds_term(x@, x@[i as int]@));
                assert(holds_term(y@, x@[i as int]@));
                return true;
            }
            j = j + 1;
        }
        i = i + 1;
    }
    assert forall|w: Seq<char>| #[trigger] holds_term(x@, w) implies !holds_term(y@, w) by {
        let k = choose|k: int| 0 <= k < x@.len() && (#[trigger] x@[k])@ == w;
        assert(!holds_term(y@, x@[k]@));
    }
    false
}

fn links_to(body: &String, slug: &String) -> (b: bool)
    ensures
        b == contains(body@, link_text(slug@)),
{
    let link = concat(&concat(&chars_of("[["), &chars_of(slug.as_str())), &chars_of("]]"));
    contains_exec(&chars_of(body.as_str()), &link)
}

pub fn detect_workaround_vs_plan<'a>(entry: &DetectorInput<'a>, all: &[DetectorInput<'a>]) -> (r: Option<Finding>)
    ensures
        opt_view(r) == spec_workaround_vs_plan(entry@, input_views(all@)),
{
    if entry.entry_type != EntryType::Workaround {
        return None;
    }
    let entry_terms = key_terms(entry.body.as_str());
    let ghost views = input_views(all@);
    assert(views.subrange(0, views.len() as int) =~= views);
    let mut k: usize = 0;
    while k < all.len()
        invariant
            k <= all@.len(),
            views == input_views(all@),
            entry@.entry_type == EntryType::Workaround,
            forall|w: Seq<char>| holds_term(entry_terms@, w) <==> is_key_term(entry@.body, w),
            first_partner(entry@, views) == first_partner(entry@, views.subrange(k as int, views.len() as int)),
        decreases all.len() - k,
    {
        let other = &all[k];
        let ghost rest = views.subrange(k as int, views.len() as int);
        assert(rest[0] == other@);
        assert(rest.drop_first() =~= views.subrange(k + 1, views.len() as int));
        if other.slug == entry.slug || other.entry_type != EntryType::Fact || other.store != entry.store {
            k = k + 1;
            continue;
        }
        let other_terms = key_terms(other.body.as_str());
        let shared = shares_term_exec(&entry_terms, &other_terms);
        proof {
            if shared {
                let w = choose|w: Seq<char>| #[trigger] holds_term(entry_terms@, w) && holds_term(other_terms@, w);
                assert(is_key_term(entry@.body, w) && is_key_term(other@.body, w));
            } else {
                assert forall|w: Seq<char>| #[trigger] is_key_term(entry@.body, w) implies !is_key_term(other@.body, w) by {
                    assert(holds_term(entry_terms@, w));
                }
            }
        }
        let linked = !shared || links_to(&entry.body, &other.slug) || links_to(&other.body, &entry.slug);
        proof {
            assert(!linked <==> is_plan_partner(entry@, other@));
        }
        if !linked {
            assert(first_partner(entry@, rest) == Some(other@));
            let route = DetectorInput::route_for(entry.store);
            let mut explanation = String::from_str("Workaround entry shares a key term with Fact entry `");
            explanation.append(other.slug.as_str());
            explanation.append("` but neither cross-links the other; one may be a fix-of-the-moment the plan supersedes");
            let mut goal = String::from_str("cross-link this entry and `");
            goal.append(other.slug.as_str());
            goal.append("` with a `[[link]]`, or supersede whichever is stale");
            let suggestion = suggestion_for(route, entry.slug.as_str(), goal.as_str());
            return Some(Finding {
                entry_slug: entry.slug.clone(),
                store: entry.store,
                kind: String::from_str("workaround-vs-plan"),
                route,
                confidence: Confidence::Confirmed,
                state: String::new(),
                explanation,
                suggestion,
            });
        }
        k = k + 1;
    }
    assert(views.subrange(k as int, views.len() as int) =~= Seq::<InputView>::empty());
    None
}

/// The cross-entry findings for entries `k..` of a store.
pub open spec fn cross_from(all: Seq<InputView>, k: int) -> Seq<FindingView>
    decreases all.len() - k,
{
    if k < 0 || k >= all.len() {
        Seq::empty()
    } else {
        opt_seq(spec_workaround_vs_plan(all[k], all)) + cross_from(all, k + 1)
    }
}

/// The cross-entry detectors over a whole store, entry by entry.
pub fn detect_cross<'a>(entries: &[DetectorInput<'a>]) -> (out: Vec<Finding>)
    ensures
        finding_views(out@) == cross_from(input_views(entries@), 0),
{
    let ghost all = input_views(entries@);
    let mut out: Vec<Finding> = Vec::new();
    let mut k: usize = 0;
    while k < entries.len()
        invariant
            k <= entries@.len(),
            all == input_views(entries@),
            finding_views(out@) + cross_from(all, k as int) == cross_from(all, 0),
        decreases entries.len() - k,
    {
        let ghost before = out@;
        let r = detect_workaround_vs_plan(&entries[k], entries);
        push_opt(&mut out, r);
        assert(finding_views(out@) + cross_from(all, k + 1) =~= finding_views(before) + cross_from(all, k as int));
        k = k + 1;
    }
    assert(finding_views(out@) =~= cross_from(all, 0));
    out
}

// ---------------------------------------------------------------------------
// The repo log's sections.
// ---------------------------------------------------------------------------

/// Alphanumeric characters kept, every run of other characters written as
/// one hyphen.
pub open spec fn collapse_runs(s: Seq<char>) -> Seq<char>
    decreases s.len(),
{
    if s.len() == 0 {
        Seq::empty()
    } else {
        let p = collapse_runs(s.drop_last());
        if is_alnum(s.last()) {
            p.push(s.last())
        } else if p.len() > 0 && p.last() == '-' {
            p
        } else {
            p.push('-')
        }
    }
}

/// A heading's slug: lowercased, non-alphanumeric runs collapsed to single
/// hyphens, hyphens trimmed from both ends.
pub open spec fn slug_of(s: Seq<char>) -> Seq<char> {
    trim_matches(collapse_runs(lowercase(s)), '-')
}

pub fn slugify(s: &str) -> (r: String)
    ensures
        r@ == slug_of(s@),
{
    let lower = to_lower(s);
    slug_of_lowered(lower.as_str())
}

/// The slug of an already lowercased heading: non-alphanumeric runs
/// collapsed to single hyphens, hyphens trimmed from both ends.
pub fn slug_of_lowered(lowered: &str) -> (r: String)
    ensures
        r@ == trim_matches(collapse_runs(lowered@), '-'),
{
    let lower = chars_of(lowered);
    let mut out: Vec<char> = Vec::new();
    let mut prev_dash = false;
    let mut i: usize = 0;
    assert(lower@.subrange(0, 0) =~= Seq::<char>::empty());
    while i < lower.len()
        invariant
            i <= lower@.len(),
            out@ == collapse_runs(lower@.subrange(0, i as int)),
            prev_dash == (out@.len() > 0 && out@.last() == '-'),
        decreases lower.len() - i,
    {
        let c = lower[i];
        assert(lower@.subrange(0, i + 1).drop_last() =~= lower@.subrange(0, i as int));
        if char_is_alnum(c) {
            out.push(c);
            prev_dash = c == '-';
        } else if !prev_dash {
            out.push('-');
            prev_dash = true;
        }
        i = i + 1;
    }
    assert(lower@.subrange(0, lower@.len() as int) =~= lower@);
    string_of(&trim_matches_exec(&out, '-'))
}

/// One section of the repo `MEMORY.md`: a `### ` heading and the lines up to
/// the next one, each with its line feed.
pub struct RepoSection {
    pub slug: String,
    pub heading: String,
    pub body: String,
}

pub struct SectionView {
    pub slug: Seq<char>,
    pub heading: Seq<char>,
    pub body: Seq<char>,
}

impl View for RepoSection {
    type V = SectionView;

    open spec fn view(&self) -> SectionView {
        SectionView { slug: self.slug@, heading: self.heading@, body: self.body@ }
    }
}

pub open spec fn section_views(v: Seq<RepoSection>) -> Seq<SectionView> {
    v.map_values(|s: RepoSection| s@)
}

pub open spec fn section_of(h: Seq<char>, b: Seq<char>) -> SectionView {
    SectionView { slug: slug_of(h), heading: h, body: b }
}

/// The sections closed so far and the one open, after some lines.
pub open spec fn sections_after(ls: Seq<Seq<char>>) -> (Seq<SectionView>, Option<(Seq<char>, Seq<char>)>)
    decreases ls.len(),
{
    if ls.len() == 0 {
        (Seq::empty(), None)
    } else {
        let (done, cur) = sections_after(ls.drop_last());
        let line = ls.last();
        if starts_with(line, "### "@) {
            let h = trim(line.subrange(4, line.len() as int));
            let closed = match cur {
                Some((h0, b0)) => done.push(section_of(h0, b0)),
                None => done,
            };
            (closed, Some((h, Seq::empty())))
        } else {
            match cur {
                Some((h0, b0)) => (done, Some((h0, b0 + line.push('\n')))),
                None => (done, None),
            }
        }
    }
}

pub open spec fn repo_sections(content: Seq<char>) -> Seq<SectionView> {
    let (done, cur) = sections_after(lines(content));
    match cur {
        Some((h, b)) => done.push(section_of(h, b)),
        None => done,
    }
}

/// Split the repo log into its `### ` sections; text before the first
/// heading belongs to none.
pub fn parse_repo_memory_sections(content: &str) -> (out: Vec<RepoSection>)
    ensures
        section_views(out@) == repo_sections(content@),
{
    let ls = lines_exec(&chars_of(content));
    let mut out: Vec<RepoSection> = Vec::new();
    let mut open_heading: Option<String> = None;
    let mut body = String::new();
    let hdr = chars_of("### ");
    proof { reveal_strlit("### "); }
    let mut i: usize = 0;
    assert(views(ls@).subrange(0, 0) =~= Seq::<Seq<char>>::empty());
    while i < ls.len()
        invariant
            i <= ls@.len(),
            hdr@ == "### "@,
            hdr@.len() == 4,
            views(ls@) == lines(content@),
            ({
                let (done, cur) = sections_after(views(ls@).subrange(0, i as int));
                &&& section_views(out@) == done
                &&& match cur {
                    Some((h, b)) => open_heading is Some && open_heading->0@ == h && body@ == b,
                    None => open_heading is None,
                }
            }),
        decreases ls.len() - i,
    {
        let line = &ls[i];
        let ghost sub = views(ls@).subrange(0, i + 1);
        assert(sub.drop_last() =~= views(ls@).subrange(0, i as int));
        assert(sub.last() == line@);
        if starts_with_exec(line, &hdr) {
            let h = string_of(&trim_exec(&slice(line, 4, line.len())));
            match open_heading {
                Some(h0) => {
                    let ghost before = section_views(out@);
                    let slug = slugify(h0.as_str());
                    let sec = RepoSection { slug, heading: h0, body };
                    out.push(sec);
                    assert(section_views(out@) =~= before.push(sec@));
                },
                None => {},
            }
            open_heading = Some(h);
            body = String::new();
        } else {
            match &open_heading {
                Some(_) => {
                    append_chars(&mut body, line);
                    push_char(&mut body, '\n');
                },
                None => {},
            }
        }
        i = i + 1;
    }
    assert(views(ls@).subrange(0, ls@.len() as int) =~= views(ls@));
    match open_heading {
        Some(h0) => {
            let ghost before = section_views(out@);
            let slug = slugify(h0.as_str());
            let sec = RepoSection { slug, heading: h0, body };
            out.push(sec);
            assert(section_views(out@) =~= before.push(sec@));
        },
        None => {},
    }
    out
}

// ---------------------------------------------------------------------------
// The tier marker.
// ---------------------------------------------------------------------------

/// The repo-side marker file naming the per-user tier's declared state.
pub const TIER_MARKER_FILE: &'static str = ".host-memory-tier";

/// The parsed tier marker: the declared state and the provenance line (date
/// and author) of the stamp or of the retirement.
pub struct TierMarker {
    pub state: TierState,
    pub provenance: String,
}

pub struct MarkerView {
    pub state: TierState,
    pub provenance: Seq<char>,
}

impl View for TierMarker {
    type V = MarkerView;

    open spec fn view(&self) -> MarkerView {
        MarkerView { state: self.state, provenance: self.provenance@ }
    }
}

/// Leading spaces and `=` signs removed.
pub open spec fn strip_assign(s: Seq<char>) -> Seq<char>
    decreases s.len(),
{
    if s.len() > 0 && (s[0] == ' ' || s[0] == '=') {
        strip_assign(s.drop_first())
    } else {
        s
    }
}

/// The value of a `key = value` line after a key of `k` characters.
pub open spec fn marker_value(l: Seq<char>, k: int) -> Seq<char> {
    trim(strip_assign(l.subrange(k, l.len() as int)))
}

/// The declared state, the stamp value and the retirement value after some
/// lines of the marker file.
pub open spec fn marker_scan(ls: Seq<Seq<char>>) -> (TierState, Seq<char>, Seq<char>)
    decreases ls.len(),
{
    if ls.len() == 0 {
        (TierState::Absent, Seq::empty(), Seq::empty())
    } else {
        let (st, sp, rp) = marker_scan(ls.drop_last());
        let l = trim(ls.last());
        if starts_with(l, "status"@) {
            let v = marker_value(l, 6);
            if v == "stamped"@ {
                (TierState::Stamped, sp, rp)
            } else if v == "retired"@ {
                (TierState::Retired, sp, rp)
            } else {
                (st, sp, rp)
            }
        } else if starts_with(l, "stamped"@) {
            (st, marker_value(l, 7), rp)
        } else if starts_with(l, "retired"@) {
            (st, sp, marker_value(l, 7))
        } else {
            (st, sp, rp)
        }
    }
}

/// The marker a file's text declares; the provenance is the retirement's
/// when retired, the stamp's otherwise. An empty text declares `Absent`.
pub open spec fn marker_of(content: Seq<char>) -> MarkerView {
    let (st, sp, rp) = marker_scan(lines(content));
    MarkerView { state: st, provenance: if st == TierState::Retired { rp } else { sp } }
}

fn strip_assign_exec(s: &[char]) -> (r: Vec<char>)
    ensures
        r@ == strip_assign(s@),
{
    let mut i: usize = 0;
    assert(s@.subrange(0, s@.len() as int) =~= s@);
    while i < s.len() && (s[i] == ' ' || s[i] == '=')
        invariant
            i <= s@.len(),
            strip_assign(s@) == strip_assign(s@.subrange(i as int, s@.len() as int)),
        decreases s.len() - i,
    {
        assert(s@.subrange(i as int, s@.len() as int).drop_first() =~= s@.subrange(i + 1, s@.len() as int));
        i = i + 1;
    }
    slice(s, i, s.len())
}

fn marker_value_exec(l: &[char], k: usize) -> (r: Vec<char>)
    requires
        k <= l@.len(),
    ensures
        r@ == marker_value(l@, k as int),
{
    trim_exec(&strip_assign_exec(&slice(l, k, l.len())))
}

/// Read the marker file's text.
pub fn parse_tier_marker(content: &str) -> (m: TierMarker)
    ensures
        m@ == marker_of(content@),
{
    let ls = lines_exec(&chars_of(content));
    let status = chars_of("status");
    let stamped_k = chars_of("stamped");
    let retired_k = chars_of("retired");
    proof {
        reveal_strlit("status");
        reveal_strlit("stamped");
        reveal_strlit("retired");
    }
    let mut state = TierState::Absent;
    let mut stamped: Vec<char> = Vec::new();
    let mut retired: Vec<char> = Vec::new();
    let mut i: usize = 0;
    assert(views(ls@).subrange(0, 0) =~= Seq::<Seq<char>>::empty());
    while i < ls.len()
        invariant
            i <= ls@.len(),
            views(ls@) == lines(content@),
            status@ == "status"@ && status@.len() == 6,
            stamped_k@ == "stamped"@ && stamped_k@.len() == 7,
            retired_k@ == "retired"@ && retired_k@.len() == 7,
            marker_scan(views(ls@).subrange(0, i as int)) == (state, stamped@, retired@),
        decreases ls.len() - i,
    {
        let ghost sub = views(ls@).subrange(0, i + 1);
        assert(sub.drop_last() =~= views(ls@).subrange(0, i as int));
        assert(sub.last() == ls@[i as int]@);
        let l = trim_exec(&ls[i]);
        if starts_with_exec(&l, &status) {
            let v = marker_value_exec(&l, 6);
            if eq_chars(&v, &stamped_k) {
                state = TierState::Stamped;
            } else if eq_chars(&v, &retired_k) {
                state = TierState::Retired;
            }
        } else if starts_with_exec(&l, &stamped_k) {
            stamped = marker_value_exec(&l, 7);
        } else if starts_with_exec(&l, &retired_k) {
            retired = marker_value_exec(&l, 7);
        }
        i = i + 1;
    }
    assert(views(ls@).subrange(0, ls@.len() as int) =~= views(ls@));
    let provenance = match state {
        TierState::Retired => string_of(&retired),
        _ => string_of(&stamped),
    };
    TierMarker { state, provenance }
}

/// The marker text the stamp writes.
pub open spec fn stamp_text(provenance: Seq<char>) -> Seq<char> {
    "# The per-user memory tier's in-use marker (call/0045). Tool-written by\n"@
        + "# `host-lifecycle dream` when it first observes an initialized store on a\n"@
        + "# machine; retire via `host-lifecycle dream --retire-marker` (an operator\n"@
        + "# act, recorded as an appended MEMORY.md correction). Never hand-edit.\n"@
        + "status  = stamped\n"@ + "stamped = "@ + provenance + "\n"@
}

/// The marker text the retirement writes.
pub open spec fn retire_text(stamped: Seq<char>, provenance: Seq<char>) -> Seq<char> {
    "# The per-user memory tier's in-use marker (call/0045). RETIRED: the\n"@
        + "# operator declared the tier out of use. A store observed after retirement\n"@
        + "# is a contradiction finding, never a silent re-stamp. Never hand-edit.\n"@
        + "status  = retired\n"@ + "stamped = "@ + stamped + "\n"@ + "retired = "@ + provenance + "\n"@
}

pub fn stamp_content(provenance: &str) -> (r: String)
    ensures
        r@ == stamp_text(provenance@),
{
    let mut s = String::from_str("# The per-user memory tier's in-use marker (call/0045). Tool-written by\n");
    s.append("# `host-lifecycle dream` when it first observes an initialized store on a\n");
    s.append("# machine; retire via `host-lifecycle dream --retire-marker` (an operator\n");
    s.append("# act, recorded as an appended MEMORY.md correction). Never hand-edit.\n");
    s.append("status  = stamped\n");
    s.append("stamped = ");
    s.append(provenance);
    s.append("\n");
    s
}

pub fn retire_content(stamped: &str, provenance: &str) -> (r: String)
    ensures
        r@ == retire_text(stamped@, provenance@),
{
    let mut s = String::from_str("# The per-user memory tier's in-use marker (call/0045). RETIRED: the\n");
    s.append("# operator declared the tier out of use. A store observed after retirement\n");
    s.append("# is a contradiction finding, never a silent re-stamp. Never hand-edit.\n");
    s.append("status  = retired\n");
    s.append("stamped = ");
    s.append(stamped);
    s.append("\n");
    s.append("retired = ");
    s.append(provenance);
    s.append("\n");
    s
}

/// Whether a run stamps the marker: only from `Absent`, and only when an
/// initialized per-user store is observed. A retirement is never
/// overwritten.
pub open spec fn stamps(state: TierState, store_initialized: bool) -> bool {
    state == TierState::Absent && store_initialized
}

pub fn should_stamp(marker: &TierMarker, store_initialized: bool) -> (b: bool)
    ensures
        b == stamps(marker.state, store_initialized),
{
    marker.state == TierState::Absent && store_initialized
}

/// The loud line a stamp prints, so the operator commits it.
pub fn stamp_message(provenance: &str) -> (r: String)
    ensures
        r@ == "dream: stamped the per-user tier marker ("@ + TIER_MARKER_FILE@ + ", "@ + provenance@
            + "); commit it \u{2014} the tier is now declared in use"@,
{
    let mut s = String::from_str("dream: stamped the per-user tier marker (");
    s.append(TIER_MARKER_FILE);
    s.append(", ");
    s.append(provenance);
    s.append("); commit it \u{2014} the tier is now declared in use");
    s
}

/// Why a retirement is refused: only a stamped marker retires.
pub open spec fn retire_refusal_text(m: MarkerView) -> Option<Seq<char>> {
    match m.state {
        TierState::Stamped => None,
        TierState::Absent => Some("no tier marker to retire (the tier was never declared in use)"@),
        TierState::Retired => Some("the tier marker is already retired ("@ + m.provenance + ")"@),
    }
}

pub fn retire_refusal(marker: &TierMarker) -> (r: Option<String>)
    ensures
        match retire_refusal_text(marker@) {
            Some(t) => r is Some && r->0@ == t,
            None => r is None,
        },
{
    match marker.state {
        TierState::Stamped => None,
        TierState::Absent => Some(String::from_str("no tier marker to retire (the tier was never declared in use)")),
        TierState::Retired => {
            let mut s = String::from_str("the tier marker is already retired (");
            s.append(marker.provenance.as_str());
            s.append(")");
            Some(s)
        },
    }
}

/// The line a retirement prints: it names the appended correction owed.
pub fn retire_message(provenance: &str) -> (r: String)
    ensures
        r@ == "dream: retired the per-user tier marker ("@ + provenance@
            + "). Record the retirement as a new dated MEMORY.md entry and commit both; unresolved cross-store links re-tier confirmed from here"@,
{
    let mut s = String::from_str("dream: retired the per-user tier marker (");
    s.append(provenance);
    s.append("). Record the retirement as a new dated MEMORY.md entry and commit both; unresolved cross-store links re-tier confirmed from here");
    s
}

/// A store observed after retirement: the marker itself is the locus.
pub open spec fn spec_contradiction(m: MarkerView) -> FindingView {
    FindingView {
        entry_slug: "tier-marker"@,
        store: StoreLoc::Repo,
        kind: "marker-contradiction"@,
        route: Route::Append,
        confidence: Confidence::Confirmed,
        state: Seq::empty(),
        explanation: "a per-user store is present on this machine but the tier marker is retired ("@
            + m.provenance + ")"@,
        suggestion: "The tier marker was retired but a per-user store exists here. The operator either re-opts in (append a correction that records the decision, remove the retired marker, and let the next dream run re-stamp) or removes the per-user store. Never edit the marker to stamped by hand."@,
    }
}

pub fn marker_contradiction_finding(marker: &TierMarker) -> (f: Finding)
    ensures
        f@ == spec_contradiction(marker@),
{
    let mut explanation = String::from_str("a per-user store is present on this machine but the tier marker is retired (");
    explanation.append(marker.provenance.as_str());
    explanation.append(")");
    Finding {
        entry_slug: String::from_str("tier-marker"),
        store: StoreLoc::Repo,
        kind: String::from_str("marker-contradiction"),
        route: Route::Append,
        confidence: Confidence::Confirmed,
        state: String::new(),
        explanation,
        suggestion: String::from_str("The tier marker was retired but a per-user store exists here. The operator either re-opts in (append a correction that records the decision, remove the retired marker, and let the next dream run re-stamp) or removes the per-user store. Never edit the marker to stamped by hand."),
    }
}

// ---------------------------------------------------------------------------
// Coverage and verdict.
// ---------------------------------------------------------------------------

pub open spec fn marker_desc(m: MarkerView) -> Seq<char> {
    match m.state {
        TierState::Absent => "tier marker: absent"@,
        TierState::Stamped => "tier marker: stamped "@ + m.provenance,
        TierState::Retired => "tier marker: retired "@ + m.provenance,
    }
}

fn marker_desc_exec(marker: &TierMarker) -> (r: String)
    ensures
        r@ == marker_desc(marker@),
{
    match marker.state {
        TierState::Absent => String::from_str("tier marker: absent"),
        TierState::Stamped => {
            let mut s = String::from_str("tier marker: stamped ");
            s.append(marker.provenance.as_str());
            s
        },
        TierState::Retired => {
            let mut s = String::from_str("tier marker: retired ");
            s.append(marker.provenance.as_str());
            s
        },
    }
}

/// The names of the rows of `rows` that cover `loc`, in order; with
/// `history_checked` false the history scan is left out.
pub open spec fn ran_on(rows: Seq<DetectorKind>, loc: StoreLoc, history_checked: bool) -> Seq<Seq<char>>
    decreases rows.len(),
{
    if rows.len() == 0 {
        Seq::empty()
    } else {
        let d = rows.last();
        let prev = ran_on(rows.drop_last(), loc, history_checked);
        if d.covers(loc) && (history_checked || d != DetectorKind::AppendOnlyViolation) {
            prev.push(d.name())
        } else {
            prev
        }
    }
}

/// `kind (reason)` for the rows of `rows` that do not cover the repo.
pub open spec fn skipped_on_repo(rows: Seq<DetectorKind>) -> Seq<Seq<char>>
    decreases rows.len(),
{
    if rows.len() == 0 {
        Seq::empty()
    } else {
        let d = rows.last();
        let prev = skipped_on_repo(rows.drop_last());
        if !d.covers(StoreLoc::Repo) {
            prev.push(d.name() + " ("@ + d.reason() + ")"@)
        } else {
            prev
        }
    }
}

/// The per-tier coverage lines, generated from the applicability rows and
/// the store facts the audit used.
pub open spec fn spec_coverage(m: MarkerView, store_present: bool, history_checked: bool) -> Seq<Seq<char>> {
    let rows = DetectorKind::all();
    let skipped = skipped_on_repo(rows);
    let repo_line = "coverage: repo tier: checked "@ + joined(ran_on(rows, StoreLoc::Repo, history_checked), ", "@)
        + "; links resolved against the union of both stores ("@ + marker_desc(m) + ")"@
        + (if !history_checked { "; unchecked: append-only-violation (no git history available)"@ } else { Seq::empty() })
        + (if skipped.len() > 0 { "; not applicable: "@ + joined(skipped, "; "@) } else { Seq::empty() });
    let user_line = if store_present {
        "coverage: per-user tier: store present on this machine; checked "@ + joined(ran_on(rows, StoreLoc::PerUser, true), ", "@)
    } else {
        "coverage: per-user tier: store absent on this machine ("@ + marker_desc(m)
            + "); cross-store links resolved against the repo log only"@
    };
    seq![repo_line, user_line]
}

fn all_rows() -> (rows: Vec<DetectorKind>)
    ensures
        rows@ == DetectorKind::all(),
{
    let rows = vec![
        DetectorKind::SupersededButUnlinked,
        DetectorKind::DanglingLink,
        DetectorKind::RoomTouching,
        DetectorKind::DescriptionBodyDrift,
        DetectorKind::StaleStateOverLore,
        DetectorKind::WorkaroundVsPlan,
        DetectorKind::AppendOnlyViolation,
    ];
    assert(rows@ =~= DetectorKind::all());
    rows
}

fn ran_names(loc: StoreLoc, history_checked: bool) -> (out: Vec<String>)
    ensures
        string_views(out@) == ran_on(DetectorKind::all(), loc, history_checked),
{
    let rows = all_rows();
    let mut out: Vec<String> = Vec::new();
    let mut i: usize = 0;
    assert(rows@.subrange(0, 0) =~= Seq::<DetectorKind>::empty());
    while i < rows.len()
        invariant
            i <= rows@.len(),
            string_views(out@) == ran_on(rows@.subrange(0, i as int), loc, history_checked),
        decreases rows.len() - i,
    {
        let d = rows[i];
        let ghost sub = rows@.subrange(0, i + 1);
        assert(sub.drop_last() =~= rows@.subrange(0, i as int));
        if d.covers_exec(loc) && (history_checked || d != DetectorKind::AppendOnlyViolation) {
            let ghost before = string_views(out@);
            out.push(String::from_str(d.kind_str()));
            assert(string_views(out@) =~= before.push(d.name()));
        }
        i = i + 1;
    }
    assert(rows@.subrange(0, rows@.len() as int) =~= rows@);
    out
}

fn skipped_names() -> (out: Vec<String>)
    ensures
        string_views(out@) == skipped_on_repo(DetectorKind::all()),
{
    let rows = all_rows();
    let mut out: Vec<String> = Vec::new();
    let mut i: usize = 0;
    assert(rows@.subrange(0, 0) =~= Seq::<DetectorKind>::empty());
    while i < rows.len()
        invariant
            i <= rows@.len(),
            string_views(out@) == skipped_on_repo(rows@.subrange(0, i as int)),
        decreases rows.len() - i,
    {
        let d = rows[i];
        let ghost sub = rows@.subrange(0, i + 1);
        assert(sub.drop_last() =~= rows@.subrange(0, i as int));
        if !d.covers_exec(StoreLoc::Repo) {
            let ghost before = string_views(out@);
            let mut s = String::from_str(d.kind_str());
            s.append(" (");
            s.append(d.reason_str());
            s.append(")");
            out.push(s);
            assert(string_views(out@) =~= before.push(d.name() + " ("@ + d.reason() + ")"@));
        }
        i = i + 1;
    }
    assert(rows@.subrange(0, rows@.len() as int) =~= rows@);
    out
}

/// The per-tier coverage lines, printed in the clean case and the findings
/// case alike.
pub fn coverage_lines(marker: &TierMarker, store_present: bool, history_checked: bool) -> (out: Vec<String>)
    ensures
        string_views(out@) == spec_coverage(marker@, store_present, history_checked),
{
    let desc = marker_desc_exec(marker);
    let repo_ran = ran_names(StoreLoc::Repo, history_checked);
    let skipped = skipped_names();
    let mut repo_line = String::from_str("coverage: repo tier: checked ");
    let ran = join_texts(&repo_ran, ", ");
    repo_line.append(ran.as_str());
    repo_line.append("; links resolved against the union of both stores (");
    repo_line.append(desc.as_str());
    repo_line.append(")");
    let ghost base = repo_line@;
    if !history_checked {
        repo_line.append("; unchecked: append-only-violation (no git history available)");
    } else {
        assert(repo_line@ =~= base + Seq::<char>::empty());
    }
    let ghost mid = repo_line@;
    if skipped.len() > 0 {
        repo_line.append("; not applicable: ");
        let sk = join_texts(&skipped, "; ");
        repo_line.append(sk.as_str());
        assert(repo_line@ =~= mid + ("; not applicable: "@ + joined(skipped_on_repo(DetectorKind::all()), "; "@)));
    } else {
        assert(repo_line@ =~= mid + Seq::<char>::empty());
    }
    let user_line = if store_present {
        let mut s = String::from_str("coverage: per-user tier: store present on this machine; checked ");
        let names = ran_names(StoreLoc::PerUser, true);
        let j = join_texts(&names, ", ");
        s.append(j.as_str());
        s
    } else {
        let mut s = String::from_str("coverage: per-user tier: store absent on this machine (");
        s.append(desc.as_str());
        s.append("); cross-store links resolved against the repo log only");
        s
    };
    let ghost rl = repo_line@;
    let ghost ul = user_line@;
    assert(seq![rl, ul] =~= spec_coverage(marker@, store_present, history_checked));
    let mut out: Vec<String> = Vec::new();
    out.push(repo_line);
    out.push(user_line);
    assert(string_views(out@) =~= seq![rl, ul]);
    out
}

/// How many findings carry each dangling-link state: tier-unused,
/// uninitialized-here, entry-missing.
pub open spec fn count_state(fs: Seq<FindingView>, s: Seq<char>) -> nat
    decreases fs.len(),
{
    if fs.len() == 0 {
        0
    } else {
        count_state(fs.drop_last(), s) + if fs.last().state == s { 1nat } else { 0nat }
    }
}

fn count_state_exec(findings: &Vec<Finding>, s: &str) -> (n: usize)
    ensures
        n == count_state(finding_views(findings@), s@),
{
    let sc = chars_of(s);
    let mut n: usize = 0;
    let mut i: usize = 0;
    assert(finding_views(findings@).subrange(0, 0) =~= Seq::<FindingView>::empty());
    while i < findings.len()
        invariant
            i <= findings@.len(),
            sc@ == s@,
            n == count_state(finding_views(findings@).subrange(0, i as int), s@),
            n <= i,
        decreases findings.len() - i,
    {
        let ghost sub = finding_views(findings@).subrange(0, i + 1);
        assert(sub.drop_last() =~= finding_views(findings@).subrange(0, i as int));
        assert(sub.last() == findings@[i as int]@);
        if eq_chars(&chars_of(findings[i].state.as_str()), &sc) {
            n = n + 1;
        }
        i = i + 1;
    }
    assert(finding_views(findings@).subrange(0, findings@.len() as int) =~= finding_views(findings@));
    n
}

pub fn dangling_state_counts(findings: &Vec<Finding>) -> (r: (usize, usize, usize))
    ensures
        r.0 == count_state(finding_views(findings@), "tier-unused"@),
        r.1 == count_state(finding_views(findings@), "uninitialized-here"@),
        r.2 == count_state(finding_views(findings@), "entry-missing"@),
{
    (
        count_state_exec(findings, "tier-unused"),
        count_state_exec(findings, "uninitialized-here"),
        count_state_exec(findings, "entry-missing"),
    )
}

/// Whether some finding is confirmed.
pub open spec fn any_confirmed(fs: Seq<FindingView>) -> bool {
    exists|i: int| 0 <= i < fs.len() && (#[trigger] fs[i]).confidence == Confidence::Confirmed
}

/// The audit's exit code: `0` clean; `1` when any finding is confirmed; `3`
/// when review prompts alone were found.
pub open spec fn spec_verdict(fs: Seq<FindingView>) -> i32 {
    if fs.len() == 0 {
        0
    } else if any_confirmed(fs) {
        1
    } else {
        3
    }
}

pub fn dream_verdict(findings: &Vec<Finding>) -> (code: i32)
    ensures
        code == spec_verdict(finding_views(findings@)),
{
    if findings.len() == 0 {
        return 0;
    }
    let mut i: usize = 0;
    while i < findings.len()
        invariant
            i <= findings@.len(),
            forall|k: int| 0 <= k < i ==> findings@[k].confidence != Confidence::Confirmed,
        decreases findings.len() - i,
    {
        if findings[i].confidence == Confidence::Confirmed {
            assert(finding_views(findings@)[i as int].confidence == Confidence::Confirmed);
            return 1;
        }
        i = i + 1;
    }
    assert(!any_confirmed(finding_views(findings@))) by {
        if any_confirmed(finding_views(findings@)) {
            let k = choose|k: int| 0 <= k < finding_views(findings@).len() && (#[trigger] finding_views(findings@)[k]).confidence == Confidence::Confirmed;
            assert(findings@[k].confidence != Confidence::Confirmed);
        }
    }
    3
}

/// How many findings are in the repo store, which `--fix` refuses.
pub open spec fn repo_count(fs: Seq<FindingView>) -> nat
    decreases fs.len(),
{
    if fs.len() == 0 {
        0
    } else {
        repo_count(fs.drop_last()) + if fs.last().store == StoreLoc::Repo { 1nat } else { 0nat }
    }
}

pub fn repo_finding_count(findings: &Vec<Finding>) -> (n: usize)
    ensures
        n == repo_count(finding_views(findings@)),
{
    let mut n: usize = 0;
    let mut i: usize = 0;
    assert(finding_views(findings@).subrange(0, 0) =~= Seq::<FindingView>::empty());
    while i < findings.len()
        invariant
            i <= findings@.len(),
            n == repo_count(finding_views(findings@).subrange(0, i as int)),
            n <= i,
        decreases findings.len() - i,
    {
        let ghost sub = finding_views(findings@).subrange(0, i + 1);
        assert(sub.drop_last() =~= finding_views(findings@).subrange(0, i as int));
        assert(sub.last() == findings@[i as int]@);
        if findings[i].store == StoreLoc::Repo {
            n = n + 1;
        }
        i = i + 1;
    }
    assert(finding_views(findings@).subrange(0, findings@.len() as int) =~= finding_views(findings@));
    n
}

/// What `dream` did: its exit code, the findings, and the flags as parsed.
pub struct DreamOutcome {
    pub exit_code: i32,
    pub findings: Vec<Finding>,
    pub fix_mode: bool,
    pub json: bool,
}

/// The outcome of an audit that ran: with `--fix` any repo finding is
/// refused with exit `2`; otherwise the verdict decides.
pub fn settle_outcome(findings: Vec<Finding>, fix_mode: bool, json: bool) -> (o: DreamOutcome)
    ensures
        finding_views(o.findings@) == finding_views(findings@),
        o.fix_mode == fix_mode,
        o.json == json,
        o.exit_code == if fix_mode && repo_count(finding_views(findings@)) > 0 {
            2
        } else {
            spec_verdict(finding_views(findings@))
        },
{
    if fix_mode && repo_finding_count(&findings) > 0 {
        return DreamOutcome { exit_code: 2, findings, fix_mode, json };
    }
    let code = dream_verdict(&findings);
    DreamOutcome { exit_code: code, findings, fix_mode, json }
}

// ---------------------------------------------------------------------------
// Append-only violations in the repo log's history.
// ---------------------------------------------------------------------------

/// The scan of `git log -p` over the repo log: whether a hunk is open, the
/// section the current hunk is in, and the sections with removed body lines.
pub struct HistoryScan {
    pub in_diff: bool,
    pub current: Option<Seq<char>>,
    pub edited: Set<Seq<char>>,
}

pub open spec fn history_step(st: HistoryScan, line: Seq<char>) -> HistoryScan {
    if starts_with(line, "diff --git"@) || starts_with(line, "commit "@) {
        HistoryScan { in_diff: false, current: None, ..st }
    } else if starts_with(line, "@@"@) {
        HistoryScan { in_diff: true, current: None, ..st }
    } else if !st.in_diff {
        st
    } else if starts_with(line, " ### "@) || starts_with(line, "+### "@) {
        HistoryScan { current: Some(trim(line.subrange(5, line.len() as int))), ..st }
    } else if starts_with(line, "-### "@) {
        HistoryScan { current: None, ..st }
    } else if starts_with(line, "-"@) && !starts_with(line, "---"@) {
        match st.current {
            Some(s) => HistoryScan { edited: st.edited.insert(s), ..st },
            None => st,
        }
    } else {
        st
    }
}

pub open spec fn history_scan(ls: Seq<Seq<char>>) -> HistoryScan
    decreases ls.len(),
{
    if ls.len() == 0 {
        HistoryScan { in_diff: false, current: None, edited: Set::empty() }
    } else {
        history_step(history_scan(ls.drop_last()), ls.last())
    }
}

/// The sections of the repo log that had body lines removed in some
/// revision: a removal inside a hunk, under a context or added `### `
/// heading. A removed heading closes the section.
pub open spec fn edited_in(log: Seq<char>) -> Set<Seq<char>> {
    history_scan(lines(log)).edited
}

/// The edited sections of the repo log, in `String` order, each once.
pub fn edited_sections(log: &str) -> (out: Vec<String>)
    ensures
        strictly_sorted(string_views(out@)),
        string_views(out@).to_set() == edited_in(log@),
{
    let ls = lines_exec(&chars_of(log));
    let diff_k = chars_of("diff --git");
    let commit_k = chars_of("commit ");
    let hunk_k = chars_of("@@");
    let ctx_k = chars_of(" ### ");
    let add_k = chars_of("+### ");
    let del_h = chars_of("-### ");
    let minus = chars_of("-");
    let meta = chars_of("---");
    proof {
        reveal_strlit(" ### ");
        reveal_strlit("+### ");
    }
    let mut in_diff = false;
    let mut current: Option<Vec<char>> = None;
    let mut found: Vec<Vec<char>> = Vec::new();
    let mut i: usize = 0;
    assert(views(ls@).subrange(0, 0) =~= Seq::<Seq<char>>::empty());
    assert(views(found@).to_set() =~= Set::<Seq<char>>::empty());
    while i < ls.len()
        invariant
            i <= ls@.len(),
            views(ls@) == lines(log@),
            diff_k@ == "diff --git"@ && commit_k@ == "commit "@ && hunk_k@ == "@@"@,
            ctx_k@ == " ### "@ && add_k@ == "+### "@ && del_h@ == "-### "@,
            minus@ == "-"@ && meta@ == "---"@,
            ctx_k@.len() == 5 && add_k@.len() == 5,
            strictly_sorted(views(found@)),
            ({
                let st = history_scan(views(ls@).subrange(0, i as int));
                &&& st.in_diff == in_diff
                &&& st.current == match current { Some(c) => Some(c@), None => None::<Seq<char>> }
                &&& st.edited == views(found@).to_set()
            }),
        decreases ls.len() - i,
    {
        let line = &ls[i];
        let ghost sub = views(ls@).subrange(0, i + 1);
        assert(sub.drop_last() =~= views(ls@).subrange(0, i as int));
        assert(sub.last() == line@);
        if starts_with_exec(line, &diff_k) || starts_with_exec(line, &commit_k) {
            in_diff = false;
            current = None;
        } else if starts_with_exec(line, &hunk_k) {
            in_diff = true;
            current = None;
        } else if !in_diff {
        } else if starts_with_exec(line, &ctx_k) || starts_with_exec(line, &add_k) {
            current = Some(trim_exec(&slice(line, 5, line.len())));
        } else if starts_with_exec(line, &del_h) {
            current = None;
        } else if starts_with_exec(line, &minus) && !starts_with_exec(line, &meta) {
            match &current {
                Some(c) => {
                    let cc = slice(c, 0, c.len());
                    assert(cc@ =~= c@);
                    insert_sorted(&mut found, cc);
                },
                None => {},
            }
        }
        i = i + 1;
    }
    assert(views(ls@).subrange(0, ls@.len() as int) =~= views(ls@));
    let mut out: Vec<String> = Vec::new();
    let mut k: usize = 0;
    while k < found.len()
        invariant
            k <= found@.len(),
            string_views(out@) == views(found@).subrange(0, k as int),
        decreases found.len() - k,
    {
        let ghost before = string_views(out@);
        assert(views(found@)[k as int] == found@[k as int]@);
        let t = string_of(&found[k]);
        out.push(t);
        assert(string_views(out@) =~= before.push(t@));
        assert(views(found@).subrange(0, k + 1) =~= views(found@).subrange(0, k as int).push(found@[k as int]@));
        k = k + 1;
    }
    assert(string_views(out@) =~= views(found@));
    out
}

/// The finding for a section edited in place: restore and append, never
/// edit further.
pub open spec fn spec_violation(section: Seq<char>) -> FindingView {
    FindingView {
        entry_slug: slug_of(section),
        store: StoreLoc::Repo,
        kind: "append-only-violation"@,
        route: Route::Append,
        confidence: Confidence::Confirmed,
        state: Seq::empty(),
        explanation: "section `"@ + section
            + "` has body removals in git history; the repo MEMORY.md is append-only (section 6 of the agent instructions); if the body changed, append a correction with a forward [[link]] instead"@,
        suggestion: "The repo MEMORY.md section `"@ + section
            + "` was edited in place \u{2014} a violation of \u{00a7}6 of the agent instructions. Append a new dated correction that restores the removed text and names the violated section with a forward `[[link]]`; the restoration rides the append. Never edit repo entries in place."@,
    }
}

pub fn violation_finding(section: &str) -> (f: Finding)
    ensures
        f@ == spec_violation(section@),
{
    let mut explanation = String::from_str("section `");
    explanation.append(section);
    explanation.append("` has body removals in git history; the repo MEMORY.md is append-only (section 6 of the agent instructions); if the body changed, append a correction with a forward [[link]] instead");
    let mut suggestion = String::from_str("The repo MEMORY.md section `");
    suggestion.append(section);
    suggestion.append("` was edited in place \u{2014} a violation of \u{00a7}6 of the agent instructions. Append a new dated correction that restores the removed text and names the violated section with a forward `[[link]]`; the restoration rides the append. Never edit repo entries in place.");
    Finding {
        entry_slug: slugify(section),
        store: StoreLoc::Repo,
        kind: String::from_str("append-only-violation"),
        route: Route::Append,
        confidence: Confidence::Confirmed,
        state: String::new(),
        explanation,
        suggestion,
    }
}

/// One finding per section of the repo log edited in place, in section
/// order, from the text of `git log -p` over it.
pub fn append_only_violations(log: &str) -> (out: Vec<Finding>)
    ensures
        exists|secs: Seq<Seq<char>>|
            strictly_sorted(secs) && secs.to_set() == edited_in(log@) && finding_views(out@)
                == secs.map_values(|s: Seq<char>| spec_violation(s)),
{
    let secs = edited_sections(log);
    let mut out: Vec<Finding> = Vec::new();
    let mut k: usize = 0;
    while k < secs.len()
        invariant
            k <= secs@.len(),
            finding_views(out@) == string_views(secs@).subrange(0, k as int).map_values(|s: Seq<char>| spec_violation(s)),
        decreases secs.len() - k,
    {
        assert(string_views(secs@)[k as int] == secs@[k as int]@);
        let ghost before = finding_views(out@);
        let f = violation_finding(secs[k].as_str());
        out.push(f);
        assert(finding_views(out@) =~= before.push(f@));
        assert(string_views(secs@).subrange(0, k + 1) =~= string_views(secs@).subrange(0, k as int).push(secs@[k as int]@));
        assert(finding_views(out@) =~= string_views(secs@).subrange(0, k + 1).map_values(|s: Seq<char>| spec_violation(s)));
        k = k + 1;
    }
    assert(string_views(secs@).subrange(0, secs@.len() as int) =~= string_views(secs@));
    out
}

// ---------------------------------------------------------------------------
// The audit over both stores.
// ---------------------------------------------------------------------------

/// One audit's result: the findings and the store facts the coverage lines
/// report, so output can never claim more than the audit did.
pub struct Audit {
    pub findings: Vec<Finding>,
    pub marker: TierMarker,
    pub store_present: bool,
    /// Whether the history scan ran; false means unchecked.
    pub history_checked: bool,
}

pub open spec fn entry_input(e: EntryView, known: Seq<Seq<char>>, m: MarkerView, present: bool) -> InputView {
    InputView {
        slug: e.slug,
        description: e.description,
        body: e.body,
        superseded_by: e.superseded_by,
        entry_type: e.entry_type,
        store: StoreLoc::PerUser,
        known,
        tier: m.state,
        provenance: m.provenance,
        store_present: present,
    }
}

pub open spec fn section_input(s: SectionView, known: Seq<Seq<char>>, m: MarkerView, present: bool) -> InputView {
    InputView {
        slug: s.slug,
        description: s.heading,
        body: s.body,
        superseded_by: Seq::empty(),
        entry_type: EntryType::Fact,
        store: StoreLoc::Repo,
        known,
        tier: m.state,
        provenance: m.provenance,
        store_present: present,
    }
}

pub open spec fn detect_each(vs: Seq<InputView>) -> Seq<FindingView>
    decreases vs.len(),
{
    if vs.len() == 0 {
        Seq::empty()
    } else {
        detect_each(vs.drop_last()) + spec_detect(vs.last())
    }
}

/// The slugs a `[[link]]` resolves against: both stores'.
pub open spec fn union_slugs(entries: Seq<EntryView>, secs: Seq<SectionView>) -> Seq<Seq<char>> {
    entries.map_values(|e: EntryView| e.slug) + secs.map_values(|s: SectionView| s.slug)
}

/// The audit's findings, per-user tier first: the per-entry detectors over
/// the per-user store, the cross-entry detectors over it, the marker
/// contradiction, the per-entry detectors over the repo log's sections, and
/// the history scan's findings. The per-user store counts only when present.
#[verifier::opaque]
pub open spec fn spec_audit(
    m: MarkerView,
    present: bool,
    entries: Seq<EntryView>,
    repo_content: Seq<char>,
    violations: Seq<FindingView>,
) -> Seq<FindingView> {
    let users = if present { entries } else { Seq::empty() };
    let secs = repo_sections(repo_content);
    let known = union_slugs(users, secs);
    let uv = users.map_values(|e: EntryView| entry_input(e, known, m, present));
    let rv = secs.map_values(|s: SectionView| section_input(s, known, m, present));
    detect_each(uv) + cross_from(uv, 0) + contradiction_of(m, present) + detect_each(rv) + violations
}

/// The marker contradiction, raised when a per-user store is present and the
/// marker is retired.
pub open spec fn contradiction_of(m: MarkerView, present: bool) -> Seq<FindingView> {
    if present && m.state == TierState::Retired {
        seq![spec_contradiction(m)]
    } else {
        Seq::empty()
    }
}

pub open spec fn entry_views(v: Seq<MemoryEntry>) -> Seq<EntryView> {
    v.map_values(|e: MemoryEntry| e@)
}

fn detect_all<'a>(inputs: &Vec<DetectorInput<'a>>, out: &mut Vec<Finding>)
    ensures
        finding_views(final(out)@) == finding_views(old(out)@) + detect_each(input_views(inputs@)),
{
    let ghost start = finding_views(out@);
    let mut i: usize = 0;
    assert(input_views(inputs@).subrange(0, 0) =~= Seq::<InputView>::empty());
    assert(start + Seq::<FindingView>::empty() =~= start);
    while i < inputs.len()
        invariant
            i <= inputs@.len(),
            finding_views(out@) == start + detect_each(input_views(inputs@).subrange(0, i as int)),
        decreases inputs.len() - i,
    {
        let ghost sub = input_views(inputs@).subrange(0, i + 1);
        assert(sub.drop_last() =~= input_views(inputs@).subrange(0, i as int));
        assert(sub.last() == inputs@[i as int]@);
        let fs = detect(&inputs[i]);
        append_findings(out, fs);
        assert(finding_views(out@) =~= start + detect_each(sub));
        i = i + 1;
    }
    assert(input_views(inputs@).subrange(0, inputs@.len() as int) =~= input_views(inputs@));
}

fn append_findings(out: &mut Vec<Finding>, more: Vec<Finding>)
    ensures
        finding_views(final(out)@) == finding_views(old(out)@) + finding_views(more@),
{
    let ghost start = finding_views(out@);
    let mut more = more;
    let ghost all = finding_views(more@);
    let mut rev: Vec<Finding> = Vec::new();
    while more.len() > 0
        invariant
            finding_views(more@) + finding_views(rev@).reverse() == all,
            finding_views(out@) == start,
        decreases more.len(),
    {
        let ghost mb = finding_views(more@);
        let ghost rb = finding_views(rev@);
        let f = more.pop().unwrap();
        rev.push(f);
        assert(finding_views(more@) + finding_views(rev@).reverse() =~= all) by {
            assert(mb =~= finding_views(more@).push(f@));
            assert(finding_views(rev@) =~= rb.push(f@));
            assert(finding_views(rev@).reverse() =~= seq![f@] + rb.reverse());
        }
    }
    assert(finding_views(more@) =~= Seq::<FindingView>::empty());
    assert(finding_views(rev@).reverse() =~= all);
    while rev.len() > 0
        invariant
            finding_views(out@) + finding_views(rev@).reverse() == start + all,
        decreases rev.len(),
    {
        let ghost ob = finding_views(out@);
        let ghost rb = finding_views(rev@);
        let f = rev.pop().unwrap();
        out.push(f);
        assert(finding_views(out@) + finding_views(rev@).reverse() =~= start + all) by {
            assert(rb =~= finding_views(rev@).push(f@));
            assert(rb.reverse() =~= seq![f@] + finding_views(rev@).reverse());
            assert(finding_views(out@) =~= ob.push(f@));
        }
    }
    assert(finding_views(rev@).reverse() =~= Seq::<FindingView>::empty());
    assert(finding_views(out@) =~= start + all);
}

/// The audit over both stores, given what was read: the marker, whether an
/// initialized per-user store is present and its entries, the repo log's
/// text, and the history scan's findings and whether it ran.
pub fn audit(
    marker: TierMarker,
    store_present: bool,
    entries: &Vec<MemoryEntry>,
    repo_content: &str,
    violations: Vec<Finding>,
    history_checked: bool,
) -> (a: Audit)
    ensures
        finding_views(a.findings@) == spec_audit(
            marker@,
            store_present,
            entry_views(entries@),
            repo_content@,
            finding_views(violations@),
        ),
        a.marker@ == marker@,
        a.store_present == store_present,
        a.history_checked == history_checked,
{
    let ghost m = marker@;
    let ghost users = if store_present { entry_views(entries@) } else { Seq::<EntryView>::empty() };
    let empty_entries: Vec<MemoryEntry> = Vec::new();
    let users_vec: &Vec<MemoryEntry> = if store_present { entries } else { &empty_entries };
    assert(entry_views(users_vec@) =~= users);
    let secs = parse_repo_memory_sections(repo_content);
    let ghost sv = section_views(secs@);
    let mut known: Vec<String> = Vec::new();
    let mut i: usize = 0;
    while i < users_vec.len()
        invariant
            i <= users_vec@.len(),
            string_views(known@) == entry_views(users_vec@).subrange(0, i as int).map_values(|e: EntryView| e.slug),
        decreases users_vec.len() - i,
    {
        let ghost b = string_views(known@);
        let sl = users_vec[i].slug.clone();
        known.push(sl);
        assert(string_views(known@) =~= b.push(users_vec@[i as int]@.slug));
        assert(entry_views(users_vec@)[i as int] == users_vec@[i as int]@);
        assert(entry_views(users_vec@).subrange(0, i + 1).map_values(|e: EntryView| e.slug)
            =~= entry_views(users_vec@).subrange(0, i as int).map_values(|e: EntryView| e.slug).push(users_vec@[i as int]@.slug));
        i = i + 1;
    }
    assert(entry_views(users_vec@).subrange(0, users_vec@.len() as int) =~= entry_views(users_vec@));
    let mut k: usize = 0;
    let ghost uk = string_views(known@);
    while k < secs.len()
        invariant
            k <= secs@.len(),
            sv == section_views(secs@),
            string_views(known@) == uk + sv.subrange(0, k as int).map_values(|s: SectionView| s.slug),
        decreases secs.len() - k,
    {
        let ghost b = string_views(known@);
        let sl = secs[k].slug.clone();
        known.push(sl);
        assert(string_views(known@) =~= b.push(secs@[k as int]@.slug));
        assert(sv[k as int] == secs@[k as int]@);
        assert(sv.subrange(0, k + 1).map_values(|s: SectionView| s.slug)
            =~= sv.subrange(0, k as int).map_values(|s: SectionView| s.slug).push(secs@[k as int]@.slug));
        k = k + 1;
    }
    assert(sv.subrange(0, sv.len() as int) =~= sv);
    let ghost kv = string_views(known@);
    assert(kv =~= union_slugs(users, sv));
    let mut findings: Vec<Finding> = Vec::new();
    let ghost uv = users.map_values(|e: EntryView| entry_input(e, kv, m, store_present));
    let ghost rv = sv.map_values(|s: SectionView| section_input(s, kv, m, store_present));
    {
        let mut inputs: Vec<DetectorInput> = Vec::new();
        let mut j: usize = 0;
        while j < users_vec.len()
            invariant
                j <= users_vec@.len(),
                entry_views(users_vec@) == users,
                string_views(known@) == kv,
                marker@ == m,
                uv == users.map_values(|e: EntryView| entry_input(e, kv, m, store_present)),
                input_views(inputs@) == uv.subrange(0, j as int),
            decreases users_vec.len() - j,
        {
            let e = &users_vec[j];
            let inp = DetectorInput {
                slug: e.slug.clone(),
                description: e.description.clone(),
                body: e.body.clone(),
                superseded_by: e.superseded_by.clone(),
                entry_type: e.entry_type,
                store: StoreLoc::PerUser,
                known_slugs: &known,
                tier: marker.state,
                tier_provenance: marker.provenance.as_str(),
                store_present,
            };
            assert(inp@ == uv[j as int]);
            let ghost b = input_views(inputs@);
            let ghost iv = inp@;
            inputs.push(inp);
            assert(input_views(inputs@) =~= b.push(iv));
            assert(input_views(inputs@) =~= uv.subrange(0, j + 1));
            j = j + 1;
        }
        assert(uv.subrange(0, uv.len() as int) =~= uv);
        detect_all(&inputs, &mut findings);
        let cross = detect_cross(inputs.as_slice());
        append_findings(&mut findings, cross);
    }
    let ghost per_user = finding_views(findings@);
    if store_present && marker.state == TierState::Retired {
        findings.push(marker_contradiction_finding(&marker));
    }
    assert(finding_views(findings@) =~= per_user + contradiction_of(m, store_present));
    {
        let mut inputs: Vec<DetectorInput> = Vec::new();
        let mut j: usize = 0;
        while j < secs.len()
            invariant
                j <= secs@.len(),
                sv == section_views(secs@),
                string_views(known@) == kv,
                marker@ == m,
                rv == sv.map_values(|s: SectionView| section_input(s, kv, m, store_present)),
                input_views(inputs@) == rv.subrange(0, j as int),
            decreases secs.len() - j,
        {
            let s = &secs[j];
            let inp = DetectorInput {
                slug: s.slug.clone(),
                description: s.heading.clone(),
                body: s.body.clone(),
                superseded_by: String::new(),
                entry_type: EntryType::Fact,
                store: StoreLoc::Repo,
                known_slugs: &known,
                tier: marker.state,
                tier_provenance: marker.provenance.as_str(),
                store_present,
            };
            assert(inp@ == rv[j as int]);
            let ghost b = input_views(inputs@);
            let ghost iv = inp@;
            inputs.push(inp);
            assert(input_views(inputs@) =~= b.push(iv));
            assert(input_views(inputs@) =~= rv.subrange(0, j + 1));
            j = j + 1;
        }
        assert(rv.subrange(0, rv.len() as int) =~= rv);
        detect_all(&inputs, &mut findings);
    }
    let ghost vv = finding_views(violations@);
    append_findings(&mut findings, violations);
    reveal(spec_audit);
    assert(finding_views(findings@) =~= spec_audit(m, store_present, entry_views(entries@), repo_content@, vv));
    Audit { findings, marker, store_present, history_checked }
}

// ---------------------------------------------------------------------------
// Reports.
// ---------------------------------------------------------------------------

pub open spec fn num(n: nat) -> Seq<char> {
    padded(n, 1)
}

pub open spec fn with_confidence(fs: Seq<FindingView>, c: Confidence) -> Seq<FindingView> {
    fs.filter(|f: FindingView| f.confidence == c)
}

/// The two lines a finding prints.
pub open spec fn finding_lines(f: FindingView) -> Seq<Seq<char>> {
    seq![
        f.entry_slug + " ("@ + f.store.name() + ") ["@ + f.kind + "] "@ + f.confidence.name() + " route="@
            + f.route.name() + " \u{2014} "@ + f.explanation,
        "  \u{2192} "@ + f.suggestion,
    ]
}

pub open spec fn findings_lines(fs: Seq<FindingView>) -> Seq<Seq<char>>
    decreases fs.len(),
{
    if fs.len() == 0 {
        Seq::empty()
    } else {
        findings_lines(fs.drop_last()) + finding_lines(fs.last())
    }
}

/// The text report: a count line, the per-state dangling counts when any,
/// the confirmed findings above the review prompts, then the coverage
/// lines; or `dream: clean` and the coverage lines.
pub open spec fn spec_text_report(fs: Seq<FindingView>, m: MarkerView, present: bool, hc: bool) -> Seq<Seq<char>> {
    let confirmed = with_confidence(fs, Confidence::Confirmed);
    let prompts = with_confidence(fs, Confidence::ReviewPrompt);
    let a = count_state(fs, "tier-unused"@);
    let b = count_state(fs, "uninitialized-here"@);
    let c = count_state(fs, "entry-missing"@);
    let head = if fs.len() == 0 {
        seq!["dream: clean"@]
    } else {
        seq!["dream: "@ + num(confirmed.len()) + " confirmed finding(s), "@ + num(prompts.len()) + " review prompt(s)"@]
            + (if a + b + c > 0 {
                seq!["dangling-link states: "@ + num(a) + " tier-unused, "@ + num(b) + " uninitialized-here, "@ + num(c)
                    + " entry-missing"@]
            } else {
                Seq::<Seq<char>>::empty()
            }) + findings_lines(confirmed) + findings_lines(prompts)
    };
    head + spec_coverage(m, present, hc)
}

fn push_finding_lines(out: &mut Vec<String>, f: &Finding)
    ensures
        string_views(final(out)@) == string_views(old(out)@) + finding_lines(f@),
{
    let ghost start = string_views(out@);
    let mut l = String::from_str(f.entry_slug.as_str());
    l.append(" (");
    l.append(f.store.as_str());
    l.append(") [");
    l.append(f.kind.as_str());
    l.append("] ");
    l.append(f.confidence.as_str());
    l.append(" route=");
    l.append(f.route.as_str());
    l.append(" \u{2014} ");
    l.append(f.explanation.as_str());
    let mut l2 = String::from_str("  \u{2192} ");
    l2.append(f.suggestion.as_str());
    let ghost v1 = l@;
    let ghost v2 = l2@;
    out.push(l);
    out.push(l2);
    assert(string_views(out@) =~= start + seq![v1, v2]);
}

/// Push the lines of the findings with one confidence, in order.
fn push_group(out: &mut Vec<String>, findings: &Vec<Finding>, c: Confidence)
    ensures
        string_views(final(out)@) == string_views(old(out)@) + findings_lines(with_confidence(finding_views(findings@), c)),
{
    let ghost start = string_views(out@);
    let ghost fv = finding_views(findings@);
    let mut i: usize = 0;
    proof {
        reveal(Seq::filter);
        assert(fv.subrange(0, 0) =~= Seq::<FindingView>::empty());
        assert(with_confidence(Seq::<FindingView>::empty(), c) =~= Seq::<FindingView>::empty());
        assert(start + Seq::<Seq<char>>::empty() =~= start);
    }
    while i < findings.len()
        invariant
            i <= findings@.len(),
            fv == finding_views(findings@),
            string_views(out@) == start + findings_lines(with_confidence(fv.subrange(0, i as int), c)),
        decreases findings.len() - i,
    {
        let ghost sub = fv.subrange(0, i + 1);
        assert(sub.drop_last() =~= fv.subrange(0, i as int));
        assert(sub.last() == findings@[i as int]@);
        proof { reveal(Seq::filter); }
        if findings[i].confidence == c {
            push_finding_lines(out, &findings[i]);
            let ghost w = with_confidence(sub, c);
            assert(w =~= with_confidence(fv.subrange(0, i as int), c).push(findings@[i as int]@));
            assert(w.drop_last() =~= with_confidence(fv.subrange(0, i as int), c));
            assert(w.last() == findings@[i as int]@);
            assert(findings_lines(w) == findings_lines(w.drop_last()) + finding_lines(w.last()));
            assert(string_views(out@) =~= start + findings_lines(with_confidence(sub, c)));
        } else {
            assert(with_confidence(sub, c) =~= with_confidence(fv.subrange(0, i as int), c));
        }
        i = i + 1;
    }
    assert(fv.subrange(0, fv.len() as int) =~= fv);
}

fn count_confidence(findings: &Vec<Finding>, c: Confidence) -> (n: usize)
    ensures
        n == with_confidence(finding_views(findings@), c).len(),
{
    let ghost fv = finding_views(findings@);
    let mut n: usize = 0;
    let mut i: usize = 0;
    proof {
        reveal(Seq::filter);
        assert(fv.subrange(0, 0) =~= Seq::<FindingView>::empty());
    }
    while i < findings.len()
        invariant
            i <= findings@.len(),
            fv == finding_views(findings@),
            n == with_confidence(fv.subrange(0, i as int), c).len(),
            n <= i,
        decreases findings.len() - i,
    {
        let ghost sub = fv.subrange(0, i + 1);
        assert(sub.drop_last() =~= fv.subrange(0, i as int));
        assert(sub.last() == findings@[i as int]@);
        proof {
            reveal(Seq::filter);
            fv.subrange(0, i as int).lemma_filter_len(|f: FindingView| f.confidence == c);
        }
        if findings[i].confidence == c {
            n = n + 1;
        }
        i = i + 1;
    }
    assert(fv.subrange(0, fv.len() as int) =~= fv);
    n
}

fn push_lines(out: &mut Vec<String>, more: Vec<String>)
    ensures
        string_views(final(out)@) == string_views(old(out)@) + string_views(more@),
{
    let ghost start = string_views(out@);
    let mut i: usize = 0;
    assert(start + string_views(more@).subrange(0, 0) =~= start);
    while i < more.len()
        invariant
            i <= more@.len(),
            string_views(out@) == start + string_views(more@).subrange(0, i as int),
        decreases more.len() - i,
    {
        let ghost b = string_views(out@);
        let l = more[i].clone();
        out.push(l);
        assert(string_views(out@) =~= b.push(more@[i as int]@));
        assert(string_views(more@)[i as int] == more@[i as int]@);
        assert(string_views(more@).subrange(0, i + 1) =~= string_views(more@).subrange(0, i as int).push(more@[i as int]@));
        assert(string_views(out@) =~= start + string_views(more@).subrange(0, i + 1));
        i = i + 1;
    }
    assert(string_views(more@).subrange(0, more@.len() as int) =~= string_views(more@));
}

/// The text report's lines.
pub fn text_report(findings: &Vec<Finding>, marker: &TierMarker, store_present: bool, history_checked: bool) -> (out: Vec<String>)
    ensures
        string_views(out@) == spec_text_report(finding_views(findings@), marker@, store_present, history_checked),
{
    let mut out: Vec<String> = Vec::new();
    if findings.len() == 0 {
        out.push(String::from_str("dream: clean"));
    } else {
        let nc = count_confidence(findings, Confidence::Confirmed);
        let np = count_confidence(findings, Confidence::ReviewPrompt);
        let mut head = String::from_str("dream: ");
        let d1 = decimal_text(nc as u64);
        head.append(d1.as_str());
        head.append(" confirmed finding(s), ");
        let d2 = decimal_text(np as u64);
        head.append(d2.as_str());
        head.append(" review prompt(s)");
        out.push(head);
        let (a, b, c) = dangling_state_counts(findings);
        let ghost before = string_views(out@);
        if a > 0 || b > 0 || c > 0 {
            let mut l = String::from_str("dangling-link states: ");
            let da = decimal_text(a as u64);
            l.append(da.as_str());
            l.append(" tier-unused, ");
            let db = decimal_text(b as u64);
            l.append(db.as_str());
            l.append(" uninitialized-here, ");
            let dc = decimal_text(c as u64);
            l.append(dc.as_str());
            l.append(" entry-missing");
            out.push(l);
        } else {
            assert(string_views(out@) =~= before + Seq::<Seq<char>>::empty());
        }
        push_group(&mut out, findings, Confidence::Confirmed);
        push_group(&mut out, findings, Confidence::ReviewPrompt);
    }
    let cov = coverage_lines(marker, store_present, history_checked);
    push_lines(&mut out, cov);
    assert(string_views(out@) =~= spec_text_report(finding_views(findings@), marker@, store_present, history_checked));
    out
}

/// The closing line a run with findings writes to standard error.
pub fn findings_note(n: usize) -> (r: String)
    ensures
        r@ == "host-lifecycle dream: "@ + num(n as nat) + " finding(s) across the memory stores"@,
{
    let mut s = String::from_str("host-lifecycle dream: ");
    let d = decimal_text(n as u64);
    s.append(d.as_str());
    s.append(" finding(s) across the memory stores");
    s
}

/// A text inside JSON quotes: backslashes and double quotes escaped.
pub fn json_escape(s: &str) -> (r: String)
    ensures
        r@ == escape_quoted(s@),
{
    let v = chars_of(s);
    let mut out = String::new();
    let mut i: usize = 0;
    assert(v@.subrange(0, 0) =~= Seq::<char>::empty());
    while i < v.len()
        invariant
            i <= v@.len(),
            out@ == escape_quoted(v@.subrange(0, i as int)),
        decreases v.len() - i,
    {
        let c = v[i];
        if c == '\\' {
            push_char(&mut out, '\\');
            push_char(&mut out, '\\');
        } else if c == '"' {
            push_char(&mut out, '\\');
            push_char(&mut out, '"');
        } else {
            push_char(&mut out, c);
        }
        assert(v@.subrange(0, i + 1).drop_last() =~= v@.subrange(0, i as int));
        assert(out@ =~= escape_quoted(v@.subrange(0, i + 1)));
        i = i + 1;
    }
    assert(v@.subrange(0, v@.len() as int) =~= v@);
    out
}

pub open spec fn bool_text(b: bool) -> Seq<char> {
    if b { "true"@ } else { "false"@ }
}

pub open spec fn state_name(s: TierState) -> Seq<char> {
    match s {
        TierState::Absent => "absent"@,
        TierState::Stamped => "stamped"@,
        TierState::Retired => "retired"@,
    }
}

/// One finding as a JSON object.
pub open spec fn json_item(f: FindingView) -> Seq<char> {
    "    {\"entry\": \""@ + escape_quoted(f.entry_slug) + "\", \"store\": \""@ + f.store.name()
        + "\", \"kind\": \""@ + f.kind + "\", \"confidence\": \""@ + f.confidence.name()
        + "\", \"state\": \""@ + escape_quoted(f.state) + "\", \"route\": \""@ + f.route.name()
        + "\", \"explanation\": \""@ + escape_quoted(f.explanation) + "\", \"suggestion\": \""@
        + escape_quoted(f.suggestion) + "\"}"@
}

pub open spec fn quoted(t: Seq<char>) -> Seq<char> {
    "\""@ + escape_quoted(t) + "\""@
}

/// The JSON report: the findings and the coverage in one object, so clean
/// and unchecked cannot be told apart from a bare list.
pub open spec fn spec_json_report(fs: Seq<FindingView>, m: MarkerView, present: bool, hc: bool) -> Seq<char> {
    "{\n  \"findings\": [\n"@ + joined(fs.map_values(|f: FindingView| json_item(f)), ",\n"@)
        + (if fs.len() > 0 { "\n"@ } else { Seq::empty() }) + "  ],\n"@
        + "  \"coverage\": {\"marker\": {\"state\": \""@ + state_name(m.state) + "\", \"provenance\": \""@
        + escape_quoted(m.provenance) + "\"}, \"per_user_store_present\": "@ + bool_text(present)
        + ", \"history_checked\": "@ + bool_text(hc) + ", \"dangling_states\": {\"tier_unused\": "@
        + num(count_state(fs, "tier-unused"@)) + ", \"uninitialized_here\": "@
        + num(count_state(fs, "uninitialized-here"@)) + ", \"entry_missing\": "@
        + num(count_state(fs, "entry-missing"@)) + "}, \"tiers\": ["@
        + joined(spec_coverage(m, present, hc).map_values(|t: Seq<char>| quoted(t)), ", "@) + "]}\n}"@
}

fn json_item_exec(f: &Finding) -> (r: String)
    ensures
        r@ == json_item(f@),
{
    let mut s = String::from_str("    {\"entry\": \"");
    let e1 = json_escape(f.entry_slug.as_str());
    s.append(e1.as_str());
    s.append("\", \"store\": \"");
    s.append(f.store.as_str());
    s.append("\", \"kind\": \"");
    s.append(f.kind.as_str());
    s.append("\", \"confidence\": \"");
    s.append(f.confidence.as_str());
    s.append("\", \"state\": \"");
    let e2 = json_escape(f.state.as_str());
    s.append(e2.as_str());
    s.append("\", \"route\": \"");
    s.append(f.route.as_str());
    s.append("\", \"explanation\": \"");
    let e3 = json_escape(f.explanation.as_str());
    s.append(e3.as_str());
    s.append("\", \"suggestion\": \"");
    let e4 = json_escape(f.suggestion.as_str());
    s.append(e4.as_str());
    s.append("\"}");
    s
}

fn bool_str(b: bool) -> (r: &'static str)
    ensures
        r@ == bool_text(b),
{
    if b { "true" } else { "false" }
}

pub fn json_report(findings: &Vec<Finding>, marker: &TierMarker, store_present: bool, history_checked: bool) -> (r: String)
    ensures
        r@ == spec_json_report(finding_views(findings@), marker@, store_present, history_checked),
{
    let ghost fv = finding_views(findings@);
    let mut items: Vec<String> = Vec::new();
    let mut i: usize = 0;
    while i < findings.len()
        invariant
            i <= findings@.len(),
            fv == finding_views(findings@),
            string_views(items@) == fv.subrange(0, i as int).map_values(|f: FindingView| json_item(f)),
        decreases findings.len() - i,
    {
        let ghost b = string_views(items@);
        let it = json_item_exec(&findings[i]);
        let ghost iv = it@;
        items.push(it);
        assert(string_views(items@) =~= b.push(iv));
        assert(fv[i as int] == findings@[i as int]@);
        assert(fv.subrange(0, i + 1).map_values(|f: FindingView| json_item(f)) =~= fv.subrange(0, i as int).map_values(|f: FindingView| json_item(f)).push(iv));
        assert(string_views(items@) =~= fv.subrange(0, i + 1).map_values(|f: FindingView| json_item(f)));
        i = i + 1;
    }
    assert(fv.subrange(0, fv.len() as int) =~= fv);
    let mut s = String::from_str("{\n  \"findings\": [\n");
    let body = join_texts(&items, ",\n");
    s.append(body.as_str());
    let ghost mid = s@;
    if findings.len() > 0 {
        s.append("\n");
    } else {
        assert(s@ =~= mid + Seq::<char>::empty());
    }
    s.append("  ],\n");
    s.append("  \"coverage\": {\"marker\": {\"state\": \"");
    let st: &str = match marker.state {
        TierState::Absent => "absent",
        TierState::Stamped => "stamped",
        TierState::Retired => "retired",
    };
    assert(st@ == state_name(marker.state));
    s.append(st);
    s.append("\", \"provenance\": \"");
    let ep = json_escape(marker.provenance.as_str());
    s.append(ep.as_str());
    s.append("\"}, \"per_user_store_present\": ");
    s.append(bool_str(store_present));
    s.append(", \"history_checked\": ");
    s.append(bool_str(history_checked));
    let (a, b, c) = dangling_state_counts(findings);
    s.append(", \"dangling_states\": {\"tier_unused\": ");
    let da = decimal_text(a as u64);
    s.append(da.as_str());
    s.append(", \"uninitialized_here\": ");
    let db = decimal_text(b as u64);
    s.append(db.as_str());
    s.append(", \"entry_missing\": ");
    let dc = decimal_text(c as u64);
    s.append(dc.as_str());
    s.append("}, \"tiers\": [");
    let tiers = coverage_lines(marker, store_present, history_checked);
    let ghost tv = string_views(tiers@);
    let mut quoted_tiers: Vec<String> = Vec::new();
    let mut k: usize = 0;
    while k < tiers.len()
        invariant
            k <= tiers@.len(),
            tv == string_views(tiers@),
            string_views(quoted_tiers@) == tv.subrange(0, k as int).map_values(|t: Seq<char>| quoted(t)),
        decreases tiers.len() - k,
    {
        let mut q = String::from_str("\"");
        let e = json_escape(tiers[k].as_str());
        q.append(e.as_str());
        q.append("\"");
        let ghost b = string_views(quoted_tiers@);
        let ghost qv = q@;
        quoted_tiers.push(q);
        assert(string_views(quoted_tiers@) =~= b.push(qv));
        assert(tv[k as int] == tiers@[k as int]@);
        assert(tv.subrange(0, k + 1).map_values(|t: Seq<char>| quoted(t)) =~= tv.subrange(0, k as int).map_values(|t: Seq<char>| quoted(t)).push(qv));
        assert(string_views(quoted_tiers@) =~= tv.subrange(0, k + 1).map_values(|t: Seq<char>| quoted(t)));
        k = k + 1;
    }
    assert(tv.subrange(0, tv.len() as int) =~= tv);
    let tj = join_texts(&quoted_tiers, ", ");
    s.append(tj.as_str());
    s.append("]}\n}");
    s
}

// ---------------------------------------------------------------------------
// The command line.
// ---------------------------------------------------------------------------

/// What the `dream` arguments ask for: a run (flags and directory), the help
/// text, or nothing because of an unknown flag. Help and the refusal carry
/// the flags read before them.
pub enum DreamArgs {
    Run { fix: bool, json: bool, retire: bool, dir: String },
    Help { fix: bool, json: bool },
    UnknownFlag { flag: String, fix: bool, json: bool },
}

pub enum ArgsView {
    Run { fix: bool, json: bool, retire: bool, dir: Seq<char> },
    Help { fix: bool, json: bool },
    UnknownFlag { flag: Seq<char>, fix: bool, json: bool },
}

impl View for DreamArgs {
    type V = ArgsView;

    open spec fn view(&self) -> ArgsView {
        match self {
            DreamArgs::Run { fix, json, retire, dir } => ArgsView::Run { fix: *fix, json: *json, retire: *retire, dir: dir@ },
            DreamArgs::Help { fix, json } => ArgsView::Help { fix: *fix, json: *json },
            DreamArgs::UnknownFlag { flag, fix, json } => ArgsView::UnknownFlag { flag: flag@, fix: *fix, json: *json },
        }
    }
}

/// The arguments read in order; the first help flag or unknown flag ends
/// the reading, a later directory replaces an earlier one.
pub open spec fn args_after(args: Seq<Seq<char>>) -> ArgsView
    decreases args.len(),
{
    if args.len() == 0 {
        ArgsView::Run { fix: false, json: false, retire: false, dir: "."@ }
    } else {
        match args_after(args.drop_last()) {
            ArgsView::Run { fix, json, retire, dir } => {
                let a = args.last();
                if a == "--fix"@ {
                    ArgsView::Run { fix: true, json, retire, dir }
                } else if a == "--json"@ {
                    ArgsView::Run { fix, json: true, retire, dir }
                } else if a == "--retire-marker"@ {
                    ArgsView::Run { fix, json, retire: true, dir }
                } else if a == "-h"@ || a == "--help"@ {
                    ArgsView::Help { fix, json }
                } else if !starts_with(a, "--"@) {
                    ArgsView::Run { fix, json, retire, dir: a }
                } else {
                    ArgsView::UnknownFlag { flag: a, fix, json }
                }
            },
            done => done,
        }
    }
}

pub fn parse_dream_args(args: &Vec<String>) -> (r: DreamArgs)
    ensures
        r@ == args_after(string_views(args@)),
{
    let mut fix = false;
    let mut json = false;
    let mut retire = false;
    let mut dir = String::from_str(".");
    let mut i: usize = 0;
    let dash2 = chars_of("--");
    assert(string_views(args@).subrange(0, 0) =~= Seq::<Seq<char>>::empty());
    while i < args.len()
        invariant
            i <= args@.len(),
            dash2@ == "--"@,
            args_after(string_views(args@).subrange(0, i as int)) == (ArgsView::Run { fix, json, retire, dir: dir@ }),
        decreases args.len() - i,
    {
        let a = &args[i];
        let ghost sub = string_views(args@).subrange(0, i + 1);
        assert(sub.drop_last() =~= string_views(args@).subrange(0, i as int));
        assert(sub.last() == a@);
        let ac = chars_of(a.as_str());
        if eq_chars(&ac, &chars_of("--fix")) {
            fix = true;
        } else if eq_chars(&ac, &chars_of("--json")) {
            json = true;
        } else if eq_chars(&ac, &chars_of("--retire-marker")) {
            retire = true;
        } else if eq_chars(&ac, &chars_of("-h")) || eq_chars(&ac, &chars_of("--help")) {
            let r = DreamArgs::Help { fix, json };
            proof { lemma_args_done(string_views(args@), i as int + 1); }
            return r;
        } else if !starts_with_exec(&ac, &dash2) {
            dir = a.clone();
        } else {
            let r = DreamArgs::UnknownFlag { flag: a.clone(), fix, json };
            proof { lemma_args_done(string_views(args@), i as int + 1); }
            return r;
        }
        i = i + 1;
    }
    assert(string_views(args@).subrange(0, args@.len() as int) =~= string_views(args@));
    DreamArgs::Run { fix, json, retire, dir }
}

/// Once help or an unknown flag is read, later arguments change nothing.
proof fn lemma_args_done(args: Seq<Seq<char>>, k: int)
    requires
        0 <= k <= args.len(),
        !(args_after(args.subrange(0, k)) is Run),
    ensures
        args_after(args) == args_after(args.subrange(0, k)),
    decreases args.len() - k,
{
    if k < args.len() {
        assert(args.subrange(0, k + 1).drop_last() =~= args.subrange(0, k));
        lemma_args_done(args, k + 1);
    } else {
        assert(args.subrange(0, k) =~= args);
    }
}

/// The usage text `-h` prints.
pub fn dream_usage() -> (lines: Vec<String>)
    ensures
        string_views(lines@) == seq![
            "usage: host-lifecycle dream [<dir>] [--fix] [--json] [--retire-marker]"@,
            "  --fix            refuse the repo store; apply the structural-safe class to per-user (none yet)"@,
            "  --json           machine-readable findings"@,
            "  --retire-marker  operator act: declare the per-user tier out of use (record the appended correction)"@,
            "  -h, --help       this help"@,
        ],
{
    let lines = vec![
        String::from_str("usage: host-lifecycle dream [<dir>] [--fix] [--json] [--retire-marker]"),
        String::from_str("  --fix            refuse the repo store; apply the structural-safe class to per-user (none yet)"),
        String::from_str("  --json           machine-readable findings"),
        String::from_str("  --retire-marker  operator act: declare the per-user tier out of use (record the appended correction)"),
        String::from_str("  -h, --help       this help"),
    ];
    assert(string_views(lines@) =~= seq![
        "usage: host-lifecycle dream [<dir>] [--fix] [--json] [--retire-marker]"@,
        "  --fix            refuse the repo store; apply the structural-safe class to per-user (none yet)"@,
        "  --json           machine-readable findings"@,
        "  --retire-marker  operator act: declare the per-user tier out of use (record the appended correction)"@,
        "  -h, --help       this help"@,
    ]);
    lines
}

// ---------------------------------------------------------------------------
// Laws of the audit.
// ---------------------------------------------------------------------------

/// A finding belongs to the entry it was raised on: its store, the route of
/// that store, the entry's slug, and a detector whose row covers the store.
pub open spec fn belongs_to(f: FindingView, i: InputView) -> bool {
    &&& f.store == i.store
    &&& f.route == route_for(i.store)
    &&& f.entry_slug == i.slug
    &&& spec_applies(f.kind, i.store)
}

pub open spec fn all_belong(fs: Seq<FindingView>, i: InputView) -> bool {
    forall|k: int| 0 <= k < fs.len() ==> belongs_to(#[trigger] fs[k], i)
}

proof fn lemma_gated_belongs(d: DetectorKind, i: InputView, o: Option<FindingView>)
    requires
        o matches Some(f) ==> f.store == i.store && f.route == route_for(i.store) && f.entry_slug == i.slug
            && f.kind == d.name(),
    ensures
        all_belong(opt_seq(gated(d, i.store, o)), i),
{
    if let Some(f) = gated(d, i.store, o) {
        assert forall|e: DetectorKind| e.name() == f.kind implies e.covers(i.store) by {
            lemma_detector_name_injective(e, d);
        }
        assert(opt_seq(gated(d, i.store, o))[0] == f);
    }
}

proof fn lemma_all_belong_concat(a: Seq<FindingView>, b: Seq<FindingView>, i: InputView)
    requires
        all_belong(a, i),
        all_belong(b, i),
    ensures
        all_belong(a + b, i),
{
    assert forall|k: int| 0 <= k < (a + b).len() implies belongs_to(#[trigger] (a + b)[k], i) by {
        if k < a.len() {
            assert((a + b)[k] == a[k]);
        } else {
            assert((a + b)[k] == b[k - a.len()]);
        }
    }
}

/// Every finding the per-entry detectors raise belongs to the entry: its
/// store, its store's route (so a repo-log finding is never routed to an
/// in-place edit), its slug, and a detector the applicability table allows
/// on that store.
pub proof fn lemma_findings_follow_their_store(i: InputView)
    ensures
        all_belong(spec_detect(i), i),
        i.store == StoreLoc::Repo ==> forall|k: int| 0 <= k < spec_detect(i).len() ==> (#[trigger] spec_detect(i)[k]).route == Route::Append,
{
    reveal_strlit("superseded-but-unlinked");
    reveal_strlit("dangling-link");
    reveal_strlit("room-touching");
    reveal_strlit("description-body-drift");
    reveal_strlit("stale-state-over-lore");
    lemma_gated_belongs(DetectorKind::SupersededButUnlinked, i, spec_superseded_unlinked(i));
    lemma_gated_belongs(DetectorKind::DanglingLink, i, spec_dangling_link(i));
    lemma_gated_belongs(DetectorKind::RoomTouching, i, spec_room_touching(i));
    lemma_gated_belongs(DetectorKind::DescriptionBodyDrift, i, spec_description_body_drift(i));
    lemma_gated_belongs(DetectorKind::StaleStateOverLore, i, spec_stale_state_over_lore(i));
    let a = opt_seq(gated(DetectorKind::SupersededButUnlinked, i.store, spec_superseded_unlinked(i)));
    let b = opt_seq(gated(DetectorKind::DanglingLink, i.store, spec_dangling_link(i)));
    let c = opt_seq(gated(DetectorKind::RoomTouching, i.store, spec_room_touching(i)));
    let d = opt_seq(gated(DetectorKind::DescriptionBodyDrift, i.store, spec_description_body_drift(i)));
    let e = opt_seq(gated(DetectorKind::StaleStateOverLore, i.store, spec_stale_state_over_lore(i)));
    lemma_all_belong_concat(a, b, i);
    lemma_all_belong_concat(a + b, c, i);
    lemma_all_belong_concat(a + b + c, d, i);
    lemma_all_belong_concat(a + b + c + d, e, i);
    assert forall|k: int| i.store == StoreLoc::Repo && 0 <= k < spec_detect(i).len() implies (#[trigger] spec_detect(i)[k]).route == Route::Append by {
        assert(belongs_to(spec_detect(i)[k], i));
    }
}

/// A dangling link is confirmed exactly when the tier is unused: retired,
/// or never initialized with no store here; the state names the case.
pub proof fn lemma_dangling_confidence(i: InputView, link: Seq<char>)
    ensures
        (spec_dangling_finding(i, link).confidence == Confidence::Confirmed) <==> (i.tier == TierState::Retired || (
        i.tier == TierState::Absent && !i.store_present)),
        (spec_dangling_finding(i, link).confidence == Confidence::Confirmed) <==> spec_dangling_finding(i, link).state
            == "tier-unused"@,
{
    reveal_strlit("tier-unused");
    reveal_strlit("uninitialized-here");
    reveal_strlit("entry-missing");
    assert("uninitialized-here"@ != "tier-unused"@) by {
        assert("uninitialized-here"@[0] != "tier-unused"@[0]);
    }
    assert("entry-missing"@ != "tier-unused"@) by {
        assert("entry-missing"@[0] != "tier-unused"@[0]);
    }
}

/// The verdict follows the findings: clean exactly when there are none,
/// `1` only on a confirmed finding, `3` only on review prompts alone.
pub proof fn lemma_verdict_matches_findings(fs: Seq<FindingView>)
    ensures
        (spec_verdict(fs) == 0) <==> fs.len() == 0,
        spec_verdict(fs) == 1 ==> any_confirmed(fs),
        spec_verdict(fs) == 3 ==> fs.len() > 0 && !any_confirmed(fs),
        spec_verdict(fs) == 0 || spec_verdict(fs) == 1 || spec_verdict(fs) == 3,
{
}

/// The stamp is written only from `Absent`, and a retirement only from
/// `Stamped`: a retired marker is never re-stamped and nothing retires
/// twice.
pub proof fn lemma_marker_lifecycle(m: MarkerView, store_initialized: bool)
    ensures
        stamps(m.state, store_initialized) ==> m.state == TierState::Absent,
        (retire_refusal_text(m) is None) <==> m.state == TierState::Stamped,
{
}

proof fn lemma_each_in_store(vs: Seq<InputView>, loc: StoreLoc)
    requires
        forall|k: int| 0 <= k < vs.len() ==> (#[trigger] vs[k]).store == loc,
    ensures
        forall|k: int| 0 <= k < detect_each(vs).len() ==> (#[trigger] detect_each(vs)[k]).store == loc,
    decreases vs.len(),
{
    if vs.len() > 0 {
        lemma_each_in_store(vs.drop_last(), loc);
        lemma_findings_follow_their_store(vs.last());
        let a = detect_each(vs.drop_last());
        let b = spec_detect(vs.last());
        assert forall|k: int| 0 <= k < detect_each(vs).len() implies (#[trigger] detect_each(vs)[k]).store == loc by {
            if k < a.len() {
                assert(detect_each(vs)[k] == a[k]);
            } else {
                assert(detect_each(vs)[k] == b[k - a.len()]);
                assert(belongs_to(b[k - a.len()], vs.last()));
            }
        }
    }
}

proof fn lemma_cross_in_store(all: Seq<InputView>, j: int, loc: StoreLoc)
    requires
        forall|k: int| 0 <= k < all.len() ==> (#[trigger] all[k]).store == loc,
    ensures
        forall|k: int| 0 <= k < cross_from(all, j).len() ==> (#[trigger] cross_from(all, j)[k]).store == loc,
    decreases all.len() - j,
{
    if 0 <= j < all.len() {
        lemma_cross_in_store(all, j + 1, loc);
        let a = opt_seq(spec_workaround_vs_plan(all[j], all));
        let b = cross_from(all, j + 1);
        assert forall|k: int| 0 <= k < cross_from(all, j).len() implies (#[trigger] cross_from(all, j)[k]).store == loc by {
            if k < a.len() {
                assert(cross_from(all, j)[k] == a[k]);
            } else {
                assert(cross_from(all, j)[k] == b[k - a.len()]);
            }
        }
    }
}

pub open spec fn none_contradict(fs: Seq<FindingView>) -> bool {
    forall|k: int| 0 <= k < fs.len() ==> (#[trigger] fs[k]).kind != "marker-contradiction"@
}

proof fn lemma_none_contradict_concat(a: Seq<FindingView>, b: Seq<FindingView>)
    requires
        none_contradict(a),
        none_contradict(b),
    ensures
        none_contradict(a + b),
{
    assert forall|k: int| 0 <= k < (a + b).len() implies (#[trigger] (a + b)[k]).kind != "marker-contradiction"@ by {
        if k < a.len() {
            assert((a + b)[k] == a[k]);
        } else {
            assert((a + b)[k] == b[k - a.len()]);
        }
    }
}

proof fn lemma_literal_not_contradiction(kind: Seq<char>, lit: Seq<char>)
    requires
        kind == lit,
        lit.len() > 0,
        lit[0] != 'm',
    ensures
        kind != "marker-contradiction"@,
{
    reveal_strlit("marker-contradiction");
}

proof fn lemma_detect_no_contradiction(i: InputView)
    ensures
        none_contradict(spec_detect(i)),
{
    reveal_strlit("superseded-but-unlinked");
    reveal_strlit("dangling-link");
    reveal_strlit("room-touching");
    reveal_strlit("description-body-drift");
    reveal_strlit("stale-state-over-lore");
    let a = opt_seq(gated(DetectorKind::SupersededButUnlinked, i.store, spec_superseded_unlinked(i)));
    let b = opt_seq(gated(DetectorKind::DanglingLink, i.store, spec_dangling_link(i)));
    let c = opt_seq(gated(DetectorKind::RoomTouching, i.store, spec_room_touching(i)));
    let d = opt_seq(gated(DetectorKind::DescriptionBodyDrift, i.store, spec_description_body_drift(i)));
    let e = opt_seq(gated(DetectorKind::StaleStateOverLore, i.store, spec_stale_state_over_lore(i)));
    if a.len() > 0 {
        lemma_literal_not_contradiction(a[0].kind, "superseded-but-unlinked"@);
    }
    if b.len() > 0 {
        lemma_literal_not_contradiction(b[0].kind, "dangling-link"@);
    }
    if c.len() > 0 {
        lemma_literal_not_contradiction(c[0].kind, "room-touching"@);
    }
    if d.len() > 0 {
        lemma_literal_not_contradiction(d[0].kind, "description-body-drift"@);
    }
    if e.len() > 0 {
        lemma_literal_not_contradiction(e[0].kind, "stale-state-over-lore"@);
    }
    lemma_none_contradict_concat(a, b);
    lemma_none_contradict_concat(a + b, c);
    lemma_none_contradict_concat(a + b + c, d);
    lemma_none_contradict_concat(a + b + c + d, e);
}

proof fn lemma_each_no_contradiction(vs: Seq<InputView>)
    ensures
        none_contradict(detect_each(vs)),
    decreases vs.len(),
{
    if vs.len() > 0 {
        lemma_each_no_contradiction(vs.drop_last());
        lemma_detect_no_contradiction(vs.last());
        lemma_none_contradict_concat(detect_each(vs.drop_last()), spec_detect(vs.last()));
    }
}

proof fn lemma_cross_no_contradiction(all: Seq<InputView>, j: int)
    ensures
        none_contradict(cross_from(all, j)),
    decreases all.len() - j,
{
    if 0 <= j < all.len() {
        lemma_cross_no_contradiction(all, j + 1);
        let a = opt_seq(spec_workaround_vs_plan(all[j], all));
        reveal_strlit("workaround-vs-plan");
        if a.len() > 0 {
            lemma_literal_not_contradiction(a[0].kind, "workaround-vs-plan"@);
        }
        lemma_none_contradict_concat(a, cross_from(all, j + 1));
    }
}

proof fn lemma_audit_parts(
    m: MarkerView,
    present: bool,
    entries: Seq<EntryView>,
    repo_content: Seq<char>,
    violations: Seq<FindingView>,
) -> (parts: (Seq<FindingView>, Seq<FindingView>))
    requires
        forall|k: int| 0 <= k < violations.len() ==> (#[trigger] violations[k]).store == StoreLoc::Repo
            && violations[k].kind == "append-only-violation"@,
    ensures
        spec_audit(m, present, entries, repo_content, violations) == parts.0 + contradiction_of(m, present) + parts.1,
        forall|k: int| 0 <= k < parts.0.len() ==> (#[trigger] parts.0[k]).store == StoreLoc::PerUser,
        forall|k: int| 0 <= k < parts.1.len() ==> (#[trigger] parts.1[k]).store == StoreLoc::Repo,
        none_contradict(parts.0),
        none_contradict(parts.1),
{
    let users = if present { entries } else { Seq::<EntryView>::empty() };
    let secs = repo_sections(repo_content);
    let known = union_slugs(users, secs);
    let uv = users.map_values(|e: EntryView| entry_input(e, known, m, present));
    let rv = secs.map_values(|s: SectionView| section_input(s, known, m, present));
    lemma_each_in_store(uv, StoreLoc::PerUser);
    lemma_cross_in_store(uv, 0, StoreLoc::PerUser);
    lemma_each_in_store(rv, StoreLoc::Repo);
    lemma_each_no_contradiction(uv);
    lemma_cross_no_contradiction(uv, 0);
    lemma_each_no_contradiction(rv);
    let p = detect_each(uv) + cross_from(uv, 0);
    let r = detect_each(rv) + violations;
    assert forall|k: int| 0 <= k < p.len() implies (#[trigger] p[k]).store == StoreLoc::PerUser by {
        if k < detect_each(uv).len() {
            assert(p[k] == detect_each(uv)[k]);
        } else {
            assert(p[k] == cross_from(uv, 0)[k - detect_each(uv).len()]);
        }
    }
    assert forall|k: int| 0 <= k < r.len() implies (#[trigger] r[k]).store == StoreLoc::Repo by {
        if k < detect_each(rv).len() {
            assert(r[k] == detect_each(rv)[k]);
        } else {
            assert(r[k] == violations[k - detect_each(rv).len()]);
        }
    }
    reveal_strlit("append-only-violation");
    assert forall|k: int| 0 <= k < violations.len() implies (#[trigger] violations[k]).kind != "marker-contradiction"@ by {
        lemma_literal_not_contradiction(violations[k].kind, "append-only-violation"@);
    }
    lemma_none_contradict_concat(detect_each(uv), cross_from(uv, 0));
    lemma_none_contradict_concat(detect_each(rv), violations);
    reveal(spec_audit);
    assert(spec_audit(m, present, entries, repo_content, violations) =~= p + contradiction_of(m, present) + r);
    (p, r)
}

proof fn lemma_split_index(p: Seq<FindingView>, c: Seq<FindingView>, r: Seq<FindingView>, k: int)
    requires
        0 <= k < (p + c + r).len(),
    ensures
        k < p.len() ==> (p + c + r)[k] == p[k],
        p.len() <= k < p.len() + c.len() ==> (p + c + r)[k] == c[k - p.len()],
        p.len() + c.len() <= k ==> (p + c + r)[k] == r[k - p.len() - c.len()],
{
}

proof fn lemma_tier_order(p: Seq<FindingView>, c: Seq<FindingView>, r: Seq<FindingView>)
    requires
        forall|k: int| 0 <= k < p.len() ==> (#[trigger] p[k]).store == StoreLoc::PerUser,
        forall|k: int| 0 <= k < c.len() ==> (#[trigger] c[k]).store == StoreLoc::Repo,
        forall|k: int| 0 <= k < r.len() ==> (#[trigger] r[k]).store == StoreLoc::Repo,
    ensures
        forall|i: int, j: int|
            0 <= i < j < (p + c + r).len() && (#[trigger] (p + c + r)[j]).store == StoreLoc::PerUser ==> (#[trigger] (p
                + c + r)[i]).store == StoreLoc::PerUser,
        forall|i: int| 0 <= i < p.len() ==> (#[trigger] (p + c + r)[i]).store == StoreLoc::PerUser,
        forall|i: int| p.len() <= i < (p + c + r).len() ==> (#[trigger] (p + c + r)[i]).store == StoreLoc::Repo,
{
    assert forall|i: int, j: int|
        0 <= i < j < (p + c + r).len() && (#[trigger] (p + c + r)[j]).store == StoreLoc::PerUser implies (#[trigger] (p
            + c + r)[i]).store == StoreLoc::PerUser by {
        lemma_split_index(p, c, r, i);
        lemma_split_index(p, c, r, j);
    }
    assert forall|i: int| 0 <= i < p.len() implies (#[trigger] (p + c + r)[i]).store == StoreLoc::PerUser by {
        lemma_split_index(p, c, r, i);
    }
    assert forall|i: int| p.len() <= i < (p + c + r).len() implies (#[trigger] (p + c + r)[i]).store == StoreLoc::Repo by {
        lemma_split_index(p, c, r, i);
    }
}

proof fn lemma_contradiction_kind(p: Seq<FindingView>, c: Seq<FindingView>, r: Seq<FindingView>)
    requires
        none_contradict(p),
        none_contradict(r),
    ensures
        (exists|k: int| 0 <= k < (p + c + r).len() && (#[trigger] (p + c + r)[k]).kind == "marker-contradiction"@)
            ==> exists|k: int| 0 <= k < c.len() && (#[trigger] c[k]).kind == "marker-contradiction"@,
{
    if exists|k: int| 0 <= k < (p + c + r).len() && (#[trigger] (p + c + r)[k]).kind == "marker-contradiction"@ {
        let k = choose|k: int| 0 <= k < (p + c + r).len() && (#[trigger] (p + c + r)[k]).kind == "marker-contradiction"@;
        lemma_split_index(p, c, r, k);
        if k < p.len() {
            assert(p[k].kind != "marker-contradiction"@);
        } else if k >= p.len() + c.len() {
            assert(r[k - p.len() - c.len()].kind != "marker-contradiction"@);
        } else {
            assert(c[k - p.len()].kind == "marker-contradiction"@);
        }
    }
}

pub open spec fn tier_first(a: Seq<FindingView>) -> bool {
    forall|i: int, j: int|
        0 <= i < j < a.len() && (#[trigger] a[j]).store == StoreLoc::PerUser ==> (#[trigger] a[i]).store
            == StoreLoc::PerUser
}

pub open spec fn has_contradiction(a: Seq<FindingView>) -> bool {
    exists|k: int| 0 <= k < a.len() && (#[trigger] a[k]).kind == "marker-contradiction"@
}

proof fn lemma_tier_facts(a: Seq<FindingView>, p: Seq<FindingView>, r: Seq<FindingView>, x: FindingView, on: bool)
    requires
        a == p + (if on { seq![x] } else { Seq::<FindingView>::empty() }) + r,
        x.store == StoreLoc::Repo,
        forall|k: int| 0 <= k < p.len() ==> (#[trigger] p[k]).store == StoreLoc::PerUser,
        forall|k: int| 0 <= k < r.len() ==> (#[trigger] r[k]).store == StoreLoc::Repo,
    ensures
        tier_first(a),
{
    let c = if on { seq![x] } else { Seq::<FindingView>::empty() };
    assert forall|k: int| 0 <= k < c.len() implies (#[trigger] c[k]).store == StoreLoc::Repo by {
        assert(c[k] == x);
    }
    lemma_tier_order(p, c, r);
}

proof fn lemma_contradiction_iff(a: Seq<FindingView>, p: Seq<FindingView>, r: Seq<FindingView>, x: FindingView, on: bool)
    requires
        a == p + (if on { seq![x] } else { Seq::<FindingView>::empty() }) + r,
        x.kind == "marker-contradiction"@,
        none_contradict(p),
        none_contradict(r),
    ensures
        has_contradiction(a) <==> on,
{
    let c = if on { seq![x] } else { Seq::<FindingView>::empty() };
    if on {
        let k = p.len() as int;
        lemma_split_index(p, c, r, k);
        assert(a[k] == x);
    } else {
        lemma_contradiction_kind(p, c, r);
    }
}

/// The audit's findings split at the marker contradiction: the per-user
/// store's findings, then the contradiction (present exactly when a per-user
/// store is present and the marker is retired), then the repo store's. No
/// finding on either side is a marker contradiction.
pub open spec fn split_at_contradiction(a: Seq<FindingView>, m: MarkerView, present: bool) -> bool {
    exists|p: Seq<FindingView>, r: Seq<FindingView>|
        #![trigger p + contradiction_of(m, present) + r]
        a == p + contradiction_of(m, present) + r && (forall|k: int|
            0 <= k < p.len() ==> (#[trigger] p[k]).store == StoreLoc::PerUser) && (forall|k: int|
            0 <= k < r.len() ==> (#[trigger] r[k]).store == StoreLoc::Repo) && none_contradict(p) && none_contradict(r)
}

/// Per-user tier first: every finding of the per-user store comes before
/// every finding of the repo store (the history's findings being the repo's
/// append-only violations). The marker contradiction is raised exactly when
/// a per-user store is present and the marker is retired, and it stands
/// between the per-user findings and the repo's.
pub proof fn lemma_per_user_tier_first(
    m: MarkerView,
    present: bool,
    entries: Seq<EntryView>,
    repo_content: Seq<char>,
    violations: Seq<FindingView>,
)
    requires
        forall|k: int| 0 <= k < violations.len() ==> (#[trigger] violations[k]).store == StoreLoc::Repo
            && violations[k].kind == "append-only-violation"@,
    ensures
        tier_first(spec_audit(m, present, entries, repo_content, violations)),
        has_contradiction(spec_audit(m, present, entries, repo_content, violations)) <==> (present && m.state
            == TierState::Retired),
        split_at_contradiction(spec_audit(m, present, entries, repo_content, violations), m, present),
{
    let a = spec_audit(m, present, entries, repo_content, violations);
    let (p, r) = lemma_audit_parts(m, present, entries, repo_content, violations);
    let on = present && m.state == TierState::Retired;
    assert(contradiction_of(m, present) == (if on { seq![spec_contradiction(m)] } else { Seq::<FindingView>::empty() }));
    lemma_tier_facts(a, p, r, spec_contradiction(m), on);
    lemma_contradiction_iff(a, p, r, spec_contradiction(m), on);
    assert(a == p + contradiction_of(m, present) + r);
}

proof fn lemma_trim_end_keeps(s: Seq<char>, k: int)
    requires
        0 <= k < s.len(),
        !is_ws(s[k]),
    ensures
        crate::text::trim_end(s).len() > k,
        crate::text::trim_end(s) == s.subrange(0, crate::text::trim_end(s).len() as int),
    decreases s.len(),
{
    crate::text::lemma_trim_end_len(s);
    if s.len() > 0 && is_ws(s.last()) {
        assert(k < s.len() - 1);
        assert(s.drop_last()[k] == s[k]);
        lemma_trim_end_keeps(s.drop_last(), k);
    }
}

/// A line that starts with something other than whitespace keeps its
/// characters up to its last non-space one when trimmed.
proof fn lemma_trim_keeps(l: Seq<char>, k: int)
    requires
        0 <= k < l.len(),
        !is_ws(l[0]),
        !is_ws(l[k]),
    ensures
        trim(l).len() > k,
        forall|j: int| 0 <= j < trim(l).len() ==> #[trigger] trim(l)[j] == l[j],
{
    assert(crate::text::trim_start(l) == l);
    lemma_trim_end_keeps(l, k);
    crate::text::lemma_trim_end_len(l);
    let n = crate::text::trim_end(l).len() as int;
    assert(trim(l) == l.subrange(0, n));
    assert forall|j: int| 0 <= j < trim(l).len() implies #[trigger] trim(l)[j] == l[j] by {
        assert(l.subrange(0, n)[j] == l[j]);
    }
}

/// A comment line changes nothing the scan has read.
proof fn lemma_scan_comment(ls: Seq<Seq<char>>, l: Seq<char>)
    requires
        l.len() > 0,
        l[0] == '#',
    ensures
        marker_scan(ls.push(l)) == marker_scan(ls),
{
    reveal_strlit("status");
    reveal_strlit("stamped");
    reveal_strlit("retired");
    assert(!is_ws('#'));
    lemma_trim_keeps(l, 0);
    let t = trim(l);
    assert(t[0] == '#');
    assert(!starts_with(t, "status"@)) by {
        if starts_with(t, "status"@) {
            assert(t.subrange(0, 6)[0] == "status"@[0]);
        }
    }
    assert(!starts_with(t, "stamped"@)) by {
        if starts_with(t, "stamped"@) {
            assert(t.subrange(0, 7)[0] == "stamped"@[0]);
        }
    }
    assert(!starts_with(t, "retired"@)) by {
        if starts_with(t, "retired"@) {
            assert(t.subrange(0, 7)[0] == "retired"@[0]);
        }
    }
    assert(ls.push(l).drop_last() =~= ls);
}

/// A marker value reads back as written: one line, no surrounding
/// whitespace, not starting with `=`.
pub open spec fn marker_value_plain(p: Seq<char>) -> bool {
    !p.contains('\n') && trim(p) == p && (p.len() > 0 ==> p[0] != '=')
}

/// What `key = value` reads as: the value, when the key is a word of `k`
/// letters and the value is plain.
proof fn lemma_kv_value(key: Seq<char>, p: Seq<char>)
    requires
        key.len() == 7,
        forall|j: int| 0 <= j < 7 ==> 'a' <= #[trigger] key[j] <= 'z',
        marker_value_plain(p),
    ensures
        trim(key + " = "@ + p).len() >= 7,
        trim(key + " = "@ + p).subrange(0, 7) == key,
        marker_value(trim(key + " = "@ + p), 7) == p,
        !(key + " = "@ + p).contains('\n'),
        (key + " = "@ + p).last() != '\r',
        (key + " = "@ + p).len() > 0,
{
    reveal_strlit(" = ");
    reveal_strlit("= ");
    reveal_strlit(" ");
    let l = key + " = "@ + p;
    assert(!is_ws('a') && is_ws(' ') && !is_ws('=') && is_ws('\r'));
    assert(!is_ws(l[0]) && !is_ws(l[6])) by {
        assert(l[0] == key[0] && l[6] == key[6]);
    }
    lemma_trim_keeps(l, 6);
    let t = trim(l);
    assert(t.subrange(0, 7) =~= key) by {
        assert forall|j: int| 0 <= j < 7 implies t.subrange(0, 7)[j] == key[j] by {
            assert(t[j] == l[j]);
        }
    }
    if p.len() > 0 {
        crate::text::lemma_trimmed_ends(p);
        assert(l.last() == p.last());
        lemma_trim_keeps(l, l.len() - 1);
        assert(t =~= l);
        let rest = l.subrange(7, l.len() as int);
        assert(rest =~= " = "@ + p);
        assert(rest.drop_first() =~= "= "@ + p);
        assert(rest.drop_first().drop_first() =~= " "@ + p);
        assert(rest.drop_first().drop_first().drop_first() =~= p);
        assert(strip_assign(p) == p);
        assert(strip_assign(rest.drop_first().drop_first()) == p);
        assert(strip_assign(rest.drop_first()) == p);
        assert(strip_assign(rest) == p);
        crate::text::lemma_trim_noop(p);
    } else {
        assert(l =~= key + " = "@);
        assert(t =~= key + seq![' ', '=']) by {
            assert(l.last() == ' ');
            assert(crate::text::trim_start(l) == l);
            assert(l.drop_last() =~= key + seq![' ', '=']);
            assert(crate::text::trim_end(l.drop_last()) == l.drop_last());
        }
        let rest = t.subrange(7, t.len() as int);
        assert(rest =~= seq![' ', '=']);
        assert(rest.drop_first().drop_first() =~= Seq::<char>::empty());
        assert(strip_assign(rest.drop_first()) == strip_assign(rest.drop_first().drop_first()));
        crate::text::lemma_trim_noop(Seq::<char>::empty());
    }
    assert(!l.contains('\n')) by {
        if l.contains('\n') {
            let j = choose|j: int| 0 <= j < l.len() && l[j] == '\n';
            if j < 10 {
                assert(j < 7 ==> l[j] == key[j]);
            } else {
                assert(l[j] == p[j - 10]);
                assert(p.contains('\n'));
            }
        }
    }
    if p.len() > 0 {
        crate::text::lemma_trimmed_ends(p);
    }
}


/// No line feed or carriage return from position `i` on.
pub open spec fn one_line_from(s: Seq<char>, i: nat) -> bool
    decreases s.len() - i,
{
    if i >= s.len() {
        true
    } else {
        s[i as int] != '\n' && s[i as int] != '\r' && one_line_from(s, i + 1)
    }
}

proof fn lemma_one_line(s: Seq<char>, i: nat)
    requires
        one_line_from(s, i),
    ensures
        forall|j: int| i <= j < s.len() ==> #[trigger] s[j] != '\n' && s[j] != '\r',
    decreases s.len() - i,
{
    if i < s.len() {
        lemma_one_line(s, i + 1);
    }
}

/// A literal line: one line of text and its line feed.
proof fn lemma_literal_line(c: Seq<char>)
    requires
        c.len() > 1,
        c.last() == '\n',
        one_line_from(c.drop_last(), 0),
    ensures
        lines(c) == seq![c.drop_last()],
{
    lemma_one_line(c.drop_last(), 0);
    let d = c.drop_last();
    assert(!d.contains('\n')) by {
        if d.contains('\n') {
            let j = choose|j: int| 0 <= j < d.len() && d[j] == '\n';
        }
    }
    assert(d.push('\n') =~= c);
    crate::text::lemma_lines_one(d);
    assert(d.last() == d[d.len() - 1]);
}


proof fn lemma_comment_literal_0()
    ensures
        lines("# The per-user memory tier's in-use marker (call/0045). Tool-written by\n"@) == seq!["# The per-user memory tier's in-use marker (call/0045). Tool-written by\n"@.drop_last()],
        "# The per-user memory tier's in-use marker (call/0045). Tool-written by\n"@[0] == '#',
        "# The per-user memory tier's in-use marker (call/0045). Tool-written by\n"@.len() > 1 && "# The per-user memory tier's in-use marker (call/0045). Tool-written by\n"@.last() == '\n',
{
    reveal_strlit("# The per-user memory tier's in-use marker (call/0045). Tool-written by\n");
    reveal_with_fuel(one_line_from, 80);
    lemma_literal_line("# The per-user memory tier's in-use marker (call/0045). Tool-written by\n"@);
}

proof fn lemma_comment_literal_1()
    ensures
        lines("# `host-lifecycle dream` when it first observes an initialized store on a\n"@) == seq!["# `host-lifecycle dream` when it first observes an initialized store on a\n"@.drop_last()],
        "# `host-lifecycle dream` when it first observes an initialized store on a\n"@[0] == '#',
        "# `host-lifecycle dream` when it first observes an initialized store on a\n"@.len() > 1 && "# `host-lifecycle dream` when it first observes an initialized store on a\n"@.last() == '\n',
{
    reveal_strlit("# `host-lifecycle dream` when it first observes an initialized store on a\n");
    reveal_with_fuel(one_line_from, 80);
    lemma_literal_line("# `host-lifecycle dream` when it first observes an initialized store on a\n"@);
}

proof fn lemma_comment_literal_2()
    ensures
        lines("# machine; retire via `host-lifecycle dream --retire-marker` (an operator\n"@) == seq!["# machine; retire via `host-lifecycle dream --retire-marker` (an operator\n"@.drop_last()],
        "# machine; retire via `host-lifecycle dream --retire-marker` (an operator\n"@[0] == '#',
        "# machine; retire via `host-lifecycle dream --retire-marker` (an operator\n"@.len() > 1 && "# machine; retire via `host-lifecycle dream --retire-marker` (an operator\n"@.last() == '\n',
{
    reveal_strlit("# machine; retire via `host-lifecycle dream --retire-marker` (an operator\n");
    reveal_with_fuel(one_line_from, 80);
    lemma_literal_line("# machine; retire via `host-lifecycle dream --retire-marker` (an operator\n"@);
}

proof fn lemma_comment_literal_3()
    ensures
        lines("# act, recorded as an appended MEMORY.md correction). Never hand-edit.\n"@) == seq!["# act, recorded as an appended MEMORY.md correction). Never hand-edit.\n"@.drop_last()],
        "# act, recorded as an appended MEMORY.md correction). Never hand-edit.\n"@[0] == '#',
        "# act, recorded as an appended MEMORY.md correction). Never hand-edit.\n"@.len() > 1 && "# act, recorded as an appended MEMORY.md correction). Never hand-edit.\n"@.last() == '\n',
{
    reveal_strlit("# act, recorded as an appended MEMORY.md correction). Never hand-edit.\n");
    reveal_with_fuel(one_line_from, 80);
    lemma_literal_line("# act, recorded as an appended MEMORY.md correction). Never hand-edit.\n"@);
}

proof fn lemma_comment_literal_4()
    ensures
        lines("# The per-user memory tier's in-use marker (call/0045). RETIRED: the\n"@) == seq!["# The per-user memory tier's in-use marker (call/0045). RETIRED: the\n"@.drop_last()],
        "# The per-user memory tier's in-use marker (call/0045). RETIRED: the\n"@[0] == '#',
        "# The per-user memory tier's in-use marker (call/0045). RETIRED: the\n"@.len() > 1 && "# The per-user memory tier's in-use marker (call/0045). RETIRED: the\n"@.last() == '\n',
{
    reveal_strlit("# The per-user memory tier's in-use marker (call/0045). RETIRED: the\n");
    reveal_with_fuel(one_line_from, 80);
    lemma_literal_line("# The per-user memory tier's in-use marker (call/0045). RETIRED: the\n"@);
}

proof fn lemma_comment_literal_5()
    ensures
        lines("# operator declared the tier out of use. A store observed after retirement\n"@) == seq!["# operator declared the tier out of use. A store observed after retirement\n"@.drop_last()],
        "# operator declared the tier out of use. A store observed after retirement\n"@[0] == '#',
        "# operator declared the tier out of use. A store observed after retirement\n"@.len() > 1 && "# operator declared the tier out of use. A store observed after retirement\n"@.last() == '\n',
{
    reveal_strlit("# operator declared the tier out of use. A store observed after retirement\n");
    reveal_with_fuel(one_line_from, 80);
    lemma_literal_line("# operator declared the tier out of use. A store observed after retirement\n"@);
}

proof fn lemma_comment_literal_6()
    ensures
        lines("# is a contradiction finding, never a silent re-stamp. Never hand-edit.\n"@) == seq!["# is a contradiction finding, never a silent re-stamp. Never hand-edit.\n"@.drop_last()],
        "# is a contradiction finding, never a silent re-stamp. Never hand-edit.\n"@[0] == '#',
        "# is a contradiction finding, never a silent re-stamp. Never hand-edit.\n"@.len() > 1 && "# is a contradiction finding, never a silent re-stamp. Never hand-edit.\n"@.last() == '\n',
{
    reveal_strlit("# is a contradiction finding, never a silent re-stamp. Never hand-edit.\n");
    reveal_with_fuel(one_line_from, 80);
    lemma_literal_line("# is a contradiction finding, never a silent re-stamp. Never hand-edit.\n"@);
}

proof fn lemma_comment_literals()
    ensures
        lines("# The per-user memory tier's in-use marker (call/0045). Tool-written by\n"@) == seq!["# The per-user memory tier's in-use marker (call/0045). Tool-written by\n"@.drop_last()],
        "# The per-user memory tier's in-use marker (call/0045). Tool-written by\n"@[0] == '#',
        "# The per-user memory tier's in-use marker (call/0045). Tool-written by\n"@.len() > 1 && "# The per-user memory tier's in-use marker (call/0045). Tool-written by\n"@.last() == '\n',
        lines("# `host-lifecycle dream` when it first observes an initialized store on a\n"@) == seq!["# `host-lifecycle dream` when it first observes an initialized store on a\n"@.drop_last()],
        "# `host-lifecycle dream` when it first observes an initialized store on a\n"@[0] == '#',
        "# `host-lifecycle dream` when it first observes an initialized store on a\n"@.len() > 1 && "# `host-lifecycle dream` when it first observes an initialized store on a\n"@.last() == '\n',
        lines("# machine; retire via `host-lifecycle dream --retire-marker` (an operator\n"@) == seq!["# machine; retire via `host-lifecycle dream --retire-marker` (an operator\n"@.drop_last()],
        "# machine; retire via `host-lifecycle dream --retire-marker` (an operator\n"@[0] == '#',
        "# machine; retire via `host-lifecycle dream --retire-marker` (an operator\n"@.len() > 1 && "# machine; retire via `host-lifecycle dream --retire-marker` (an operator\n"@.last() == '\n',
        lines("# act, recorded as an appended MEMORY.md correction). Never hand-edit.\n"@) == seq!["# act, recorded as an appended MEMORY.md correction). Never hand-edit.\n"@.drop_last()],
        "# act, recorded as an appended MEMORY.md correction). Never hand-edit.\n"@[0] == '#',
        "# act, recorded as an appended MEMORY.md correction). Never hand-edit.\n"@.len() > 1 && "# act, recorded as an appended MEMORY.md correction). Never hand-edit.\n"@.last() == '\n',
        lines("# The per-user memory tier's in-use marker (call/0045). RETIRED: the\n"@) == seq!["# The per-user memory tier's in-use marker (call/0045). RETIRED: the\n"@.drop_last()],
        "# The per-user memory tier's in-use marker (call/0045). RETIRED: the\n"@[0] == '#',
        "# The per-user memory tier's in-use marker (call/0045). RETIRED: the\n"@.len() > 1 && "# The per-user memory tier's in-use marker (call/0045). RETIRED: the\n"@.last() == '\n',
        lines("# operator declared the tier out of use. A store observed after retirement\n"@) == seq!["# operator declared the tier out of use. A store observed after retirement\n"@.drop_last()],
        "# operator declared the tier out of use. A store observed after retirement\n"@[0] == '#',
        "# operator declared the tier out of use. A store observed after retirement\n"@.len() > 1 && "# operator declared the tier out of use. A store observed after retirement\n"@.last() == '\n',
        lines("# is a contradiction finding, never a silent re-stamp. Never hand-edit.\n"@) == seq!["# is a contradiction finding, never a silent re-stamp. Never hand-edit.\n"@.drop_last()],
        "# is a contradiction finding, never a silent re-stamp. Never hand-edit.\n"@[0] == '#',
        "# is a contradiction finding, never a silent re-stamp. Never hand-edit.\n"@.len() > 1 && "# is a contradiction finding, never a silent re-stamp. Never hand-edit.\n"@.last() == '\n',
{
    lemma_comment_literal_0();
    lemma_comment_literal_1();
    lemma_comment_literal_2();
    lemma_comment_literal_3();
    lemma_comment_literal_4();
    lemma_comment_literal_5();
    lemma_comment_literal_6();
}

/// The `status` line declares the state it names.
proof fn lemma_status_line(ls: Seq<Seq<char>>, word: Seq<char>, st: TierState)
    requires
        word == "stamped"@ && st == TierState::Stamped || word == "retired"@ && st == TierState::Retired,
    ensures
        lines("status  = "@ + word + "\n"@) == seq!["status  = "@ + word],
        marker_scan(ls.push("status  = "@ + word)) == (st, marker_scan(ls).1, marker_scan(ls).2),
{
    reveal_strlit("status  = ");
    reveal_strlit("status");
    reveal_strlit("stamped");
    reveal_strlit("retired");
    reveal_strlit("\n");
    let l = "status  = "@ + word;
    assert(l + "\n"@ =~= l.push('\n'));
    reveal_with_fuel(one_line_from, 20);
    lemma_literal_line(l + "\n"@);
    assert((l + "\n"@).drop_last() =~= l);
    assert(!is_ws('s') && !is_ws('d'));
    crate::text::lemma_trim_noop(l);
    assert(l.subrange(0, 6) =~= "status"@);
    let rest = l.subrange(6, l.len() as int);
    assert(rest.drop_first().drop_first().drop_first().drop_first() =~= word);
    assert(strip_assign(word) == word);
    assert(strip_assign(rest.drop_first().drop_first().drop_first()) == word);
    assert(strip_assign(rest.drop_first().drop_first()) == word);
    assert(strip_assign(rest.drop_first()) == word);
    assert(strip_assign(rest) == word);
    crate::text::lemma_trim_noop(word);
    assert("stamped"@ != "retired"@) by {
        assert("stamped"@[1] != "retired"@[1]);
    }
    assert(ls.push(l).drop_last() =~= ls);
}

/// A `stamped = …` line sets the stamp; a `retired = …` line the
/// retirement.
proof fn lemma_value_line(ls: Seq<Seq<char>>, key: Seq<char>, p: Seq<char>)
    requires
        key == "stamped"@ || key == "retired"@,
        marker_value_plain(p),
    ensures
        lines(key + " = "@ + p + "\n"@) == seq![key + " = "@ + p],
        key == "stamped"@ ==> marker_scan(ls.push(key + " = "@ + p)) == (marker_scan(ls).0, p, marker_scan(ls).2),
        key == "retired"@ ==> marker_scan(ls.push(key + " = "@ + p)) == (marker_scan(ls).0, marker_scan(ls).1, p),
{
    reveal_strlit("status");
    reveal_strlit("stamped");
    reveal_strlit("retired");
    reveal_strlit("\n");
    lemma_kv_value(key, p);
    let l = key + " = "@ + p;
    let t = trim(l);
    assert(l + "\n"@ =~= l.push('\n'));
    crate::text::lemma_lines_one(l);
    assert(crate::text::strip_cr(l) == l);
    assert(t[3] == key[3]) by {
        assert(t.subrange(0, 7)[3] == t[3]);
    }
    assert(!starts_with(t, "status"@)) by {
        if starts_with(t, "status"@) {
            assert(t.subrange(0, 6)[3] == "status"@[3]);
        }
    }
    if key == "retired"@ {
        assert(!starts_with(t, "stamped"@)) by {
            if starts_with(t, "stamped"@) {
                assert(t.subrange(0, 7)[0] == "stamped"@[0]);
                assert(t.subrange(0, 7)[0] == key[0]);
            }
        }
    }
    assert(starts_with(t, key));
    assert(ls.push(l).drop_last() =~= ls);
}


/// A marker file reads back as what was written: a stamp as stamped with its
/// provenance, a retirement as retired with the retirement's provenance.
pub proof fn lemma_marker_reads_back(stamped: Seq<char>, provenance: Seq<char>)
    requires
        marker_value_plain(stamped),
        marker_value_plain(provenance),
    ensures
        marker_of(stamp_text(provenance)) == (MarkerView { state: TierState::Stamped, provenance }),
        marker_of(retire_text(stamped, provenance)) == (MarkerView { state: TierState::Retired, provenance }),
{
    reveal_strlit("status  = stamped\n");
    reveal_strlit("status  = retired\n");
    reveal_strlit("status  = ");
    reveal_strlit("stamped");
    reveal_strlit("retired");
    reveal_strlit("stamped = ");
    reveal_strlit("retired = ");
    reveal_strlit(" = ");
    reveal_strlit("\n");
    lemma_comment_literals();
    let c1 = "# The per-user memory tier's in-use marker (call/0045). Tool-written by\n"@;
    let c2 = "# `host-lifecycle dream` when it first observes an initialized store on a\n"@;
    let c3 = "# machine; retire via `host-lifecycle dream --retire-marker` (an operator\n"@;
    let c4 = "# act, recorded as an appended MEMORY.md correction). Never hand-edit.\n"@;
    let s5 = "status  = "@ + "stamped"@ + "\n"@;
    let s6 = "stamped"@ + " = "@ + provenance + "\n"@;
    assert("status  = stamped\n"@ =~= s5);
    assert("stamped = "@ =~= "stamped"@ + " = "@);
    assert(stamp_text(provenance) =~= c1 + c2 + c3 + c4 + s5 + s6);
    lemma_status_line(Seq::empty(), "stamped"@, TierState::Stamped);
    lemma_value_line(Seq::empty(), "stamped"@, provenance);
    assert(c1.last() == '\n' && c2.last() == '\n' && c3.last() == '\n' && c4.last() == '\n' && s5.last() == '\n');
    crate::text::lemma_lines_concat(c1, c2);
    crate::text::lemma_lines_concat(c1 + c2, c3);
    crate::text::lemma_lines_concat(c1 + c2 + c3, c4);
    crate::text::lemma_lines_concat(c1 + c2 + c3 + c4, s5);
    crate::text::lemma_lines_concat(c1 + c2 + c3 + c4 + s5, s6);
    let d5 = "status  = "@ + "stamped"@;
    let d6 = "stamped"@ + " = "@ + provenance;
    let ls = seq![c1.drop_last(), c2.drop_last(), c3.drop_last(), c4.drop_last(), d5, d6];
    assert(lines(stamp_text(provenance)) =~= ls);
    let e = Seq::<Seq<char>>::empty();
    lemma_scan_comment(e, c1.drop_last());
    assert(e.push(c1.drop_last()) =~= ls.subrange(0, 1));
    lemma_scan_comment(ls.subrange(0, 1), c2.drop_last());
    assert(ls.subrange(0, 1).push(c2.drop_last()) =~= ls.subrange(0, 2));
    lemma_scan_comment(ls.subrange(0, 2), c3.drop_last());
    assert(ls.subrange(0, 2).push(c3.drop_last()) =~= ls.subrange(0, 3));
    lemma_scan_comment(ls.subrange(0, 3), c4.drop_last());
    assert(ls.subrange(0, 3).push(c4.drop_last()) =~= ls.subrange(0, 4));
    lemma_status_line(ls.subrange(0, 4), "stamped"@, TierState::Stamped);
    assert(ls.subrange(0, 4).push(d5) =~= ls.subrange(0, 5));
    lemma_value_line(ls.subrange(0, 5), "stamped"@, provenance);
    assert(ls.subrange(0, 5).push(d6) =~= ls);

    let r1 = "# The per-user memory tier's in-use marker (call/0045). RETIRED: the\n"@;
    let r2 = "# operator declared the tier out of use. A store observed after retirement\n"@;
    let r3 = "# is a contradiction finding, never a silent re-stamp. Never hand-edit.\n"@;
    let t4 = "status  = "@ + "retired"@ + "\n"@;
    let t5 = "stamped"@ + " = "@ + stamped + "\n"@;
    let t6 = "retired"@ + " = "@ + provenance + "\n"@;
    assert("status  = retired\n"@ =~= t4);
    assert("retired = "@ =~= "retired"@ + " = "@);
    assert(retire_text(stamped, provenance) =~= r1 + r2 + r3 + t4 + t5 + t6);
    lemma_status_line(Seq::empty(), "retired"@, TierState::Retired);
    lemma_value_line(Seq::empty(), "stamped"@, stamped);
    lemma_value_line(Seq::empty(), "retired"@, provenance);
    assert(r1.last() == '\n' && r2.last() == '\n' && r3.last() == '\n' && t4.last() == '\n' && t5.last() == '\n');
    crate::text::lemma_lines_concat(r1, r2);
    crate::text::lemma_lines_concat(r1 + r2, r3);
    crate::text::lemma_lines_concat(r1 + r2 + r3, t4);
    crate::text::lemma_lines_concat(r1 + r2 + r3 + t4, t5);
    crate::text::lemma_lines_concat(r1 + r2 + r3 + t4 + t5, t6);
    let e4 = "status  = "@ + "retired"@;
    let e5 = "stamped"@ + " = "@ + stamped;
    let e6 = "retired"@ + " = "@ + provenance;
    let rs = seq![r1.drop_last(), r2.drop_last(), r3.drop_last(), e4, e5, e6];
    assert(lines(retire_text(stamped, provenance)) =~= rs);
    lemma_scan_comment(e, r1.drop_last());
    assert(e.push(r1.drop_last()) =~= rs.subrange(0, 1));
    lemma_scan_comment(rs.subrange(0, 1), r2.drop_last());
    assert(rs.subrange(0, 1).push(r2.drop_last()) =~= rs.subrange(0, 2));
    lemma_scan_comment(rs.subrange(0, 2), r3.drop_last());
    assert(rs.subrange(0, 2).push(r3.drop_last()) =~= rs.subrange(0, 3));
    lemma_status_line(rs.subrange(0, 3), "retired"@, TierState::Retired);
    assert(rs.subrange(0, 3).push(e4) =~= rs.subrange(0, 4));
    lemma_value_line(rs.subrange(0, 4), "stamped"@, stamped);
    assert(rs.subrange(0, 4).push(e5) =~= rs.subrange(0, 5));
    lemma_value_line(rs.subrange(0, 5), "retired"@, provenance);
    assert(rs.subrange(0, 5).push(e6) =~= rs);
}


/// A room-touching finding is raised exactly when the body cites a room
/// record; it is a review prompt that names the first record cited, and it
/// routes to the record's own `Status: superseded`, never to an edit of the
/// memory entry.
pub proof fn lemma_room_touching_prompts(i: InputView)
    ensures
        spec_room_touching(i) is Some <==> room_refs(i.body).len() > 0,
        spec_room_touching(i) matches Some(f) ==> f.kind == "room-touching"@ && f.confidence
            == Confidence::ReviewPrompt && contains(f.suggestion, room_refs(i.body)[0]) && contains(
            f.suggestion,
            "Status: superseded"@,
        ) && contains(f.suggestion, "Do not edit the memory entry"@),
{
    if room_refs(i.body).len() > 0 {
        let r = room_refs(i.body)[0];
        let a = "Leave a review note: confirm whether the cited record `"@;
        let b = "` is still current. Only after operator confirmation is the record marked `Status: superseded` via an audited MADR commit; do not act on this prompt alone. Do not edit the memory entry or append to the log."@;
        let s = a + r + b;
        let n: int = r.len() as int;
        reveal_strlit("Leave a review note: confirm whether the cited record `");
        reveal_strlit("` is still current. Only after operator confirmation is the record marked `Status: superseded` via an audited MADR commit; do not act on this prompt alone. Do not edit the memory entry or append to the log.");
        reveal_strlit("Status: superseded");
        reveal_strlit("Do not edit the memory entry");
        assert(s.subrange(55, 55 + n) =~= r);
        assert(occurs_at(s, r, 55));
        let p1 = "Status: superseded"@;
        assert(s.subrange(55 + n + 75, 55 + n + 75 + p1.len()) =~= p1);
        assert(occurs_at(s, p1, 55 + n + 75));
        let p2 = "Do not edit the memory entry"@;
        assert(s.subrange(55 + n + 156, 55 + n + 156 + p2.len()) =~= p2);
        assert(occurs_at(s, p2, 55 + n + 156));
    }
}


/// What `dream` ends with before it reads anything: the help request exits
/// `0` and an unknown flag exits `2`, each with no findings and the flags
/// read before it; a run has no early outcome.
pub fn early_outcome(a: &DreamArgs) -> (r: Option<DreamOutcome>)
    ensures
        match a@ {
            ArgsView::Run { .. } => r is None,
            ArgsView::Help { fix, json } => r matches Some(o) && o.exit_code == 0 && o.findings@.len() == 0
                && o.fix_mode == fix && o.json == json,
            ArgsView::UnknownFlag { fix, json, .. } => r matches Some(o) && o.exit_code == 2
                && o.findings@.len() == 0 && o.fix_mode == fix && o.json == json,
        },
{
    match a {
        DreamArgs::Run { .. } => None,
        DreamArgs::Help { fix, json } => Some(DreamOutcome { exit_code: 0, findings: Vec::new(), fix_mode: *fix, json: *json }),
        DreamArgs::UnknownFlag { fix, json, .. } => Some(
            DreamOutcome { exit_code: 2, findings: Vec::new(), fix_mode: *fix, json: *json },
        ),
    }
}


/// The outcome of a run that ends without an audit once its directory is
/// known: `0` when it did what was asked (a marker retired), `2` when it
/// cannot proceed (the directory does not resolve, or the retirement is
/// refused or cannot be written); no findings either way.
pub fn unaudited_outcome(done: bool, fix: bool, json: bool) -> (o: DreamOutcome)
    ensures
        o.exit_code == if done {
            0i32
        } else {
            2i32
        },
        o.findings@.len() == 0,
        o.fix_mode == fix,
        o.json == json,
{
    DreamOutcome { exit_code: if done { 0 } else { 2 }, findings: Vec::new(), fix_mode: fix, json }
}


/// An entry that names a successor is reported superseded-but-unlinked
/// exactly when its body lacks the forward link `[[successor]]` (the target
/// trimmed); a bare mention of the successor does not count as the link.
/// The finding is confirmed, and routed as the entry's store is edited.
pub proof fn lemma_superseded_needs_its_forward_link(i: InputView)
    ensures
        spec_superseded_unlinked(i) is Some <==> (trim(i.superseded_by).len() > 0 && !contains(
            i.body,
            "[["@ + trim(i.superseded_by) + "]]"@,
        )),
        spec_superseded_unlinked(i) matches Some(f) ==> f.kind == "superseded-but-unlinked"@ && f.confidence
            == Confidence::Confirmed && f.entry_slug == i.slug && f.store == i.store && f.route == (if i.store == StoreLoc::Repo {
            Route::Append
        } else {
            Route::Edit
        }),
{
}

} // verus!
