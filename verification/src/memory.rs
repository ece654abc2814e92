//! The per-user memory store's entry format.
//!
//! Markdown-per-entry storage at `~/.host-memory/<encoded-cwd>/`, with a
//! `MEMORY.md` index and `[[slug]]` cross-entry links. Each entry file is YAML
//! frontmatter plus a free-form body:
//!
//! ```text
//! ---
//! description: <one-line summary; what recall keys on>
//! type: feedback | fact | workaround | state
//! created: YYYY-MM-DD
//! last_edited: YYYY-MM-DD
//! superseded_by: <slug or empty>
//! ---
//!
//! <body>
//! ```
//!
//! The index is one bullet per entry: `- [<Title>](<slug>.md): <description>`.
//! This module holds the format: rendering and parsing of entries and of the
//! index, and the project encoding. The file operations live with the program.

use vstd::prelude::*;
use vstd::string::*;

use crate::text::{
    append_chars, char_pos, chars_of, contains_char, eq_chars, find_first, lemma_split_on_nonempty,
    parse_number, parsed_number, push_char, split_exec, split_on, starts_with, string_of, trim,
    trim_exec, trim_matches, trim_matches_exec, views, char_pos_exec, find, lemma_find_first,
    starts_with_exec, lines, lines_exec, trim_matches_start, trim_start_matches_exec, slice,
    text_less, text_lt, lemma_text_lt_total, lemma_text_lt_trans, is_first_occurrence, occurs_at,
    contains, strip_cr, trim_start, trim_end, lemma_trim_noop, lemma_trimmed_ends, lemma_trim_after_ws,
    lemma_char_pos_at, lemma_lines_concat, lemma_lines_one, lemma_lines_empty, trim_matches_end, is_ws,
    lemma_split_no_sep,
};

verus! {

/// The entry's class. `Feedback` is an operator preference or correction;
/// `Fact` is durable measured lore; `Workaround` is a fix of the moment;
/// `State` is a snapshot that may go stale.
#[derive(Clone, Copy, Debug, PartialEq, Eq, Structural)]
pub enum EntryType {
    Feedback,
    Fact,
    Workaround,
    State,
}

impl EntryType {
    pub open spec fn name(self) -> Seq<char> {
        match self {
            EntryType::Feedback => "feedback"@,
            EntryType::Fact => "fact"@,
            EntryType::Workaround => "workaround"@,
            EntryType::State => "state"@,
        }
    }

    /// The entry type a frontmatter value names, if any.
    pub open spec fn from_name(s: Seq<char>) -> Option<EntryType> {
        if s == "feedback"@ {
            Some(EntryType::Feedback)
        } else if s == "fact"@ {
            Some(EntryType::Fact)
        } else if s == "workaround"@ {
            Some(EntryType::Workaround)
        } else if s == "state"@ {
            Some(EntryType::State)
        } else {
            None
        }
    }

    pub fn as_str(&self) -> (r: &'static str)
        ensures
            r@ == self.name(),
    {
        match self {
            EntryType::Feedback => "feedback",
            EntryType::Fact => "fact",
            EntryType::Workaround => "workaround",
            EntryType::State => "state",
        }
    }

    /// Parse a frontmatter `type:` value; surrounding whitespace is ignored.
    pub fn parse(s: &str) -> (r: Result<EntryType, String>)
        ensures
            match EntryType::from_name(trim(s@)) {
                Some(t) => r == Ok::<EntryType, String>(t),
                None => r is Err && r->Err_0@ == "unknown entry type: "@ + trim(s@),
            },
    {
        let t = trim_exec(&chars_of(s));
        if eq_chars(&t, &chars_of("feedback")) {
            Ok(EntryType::Feedback)
        } else if eq_chars(&t, &chars_of("fact")) {
            Ok(EntryType::Fact)
        } else if eq_chars(&t, &chars_of("workaround")) {
            Ok(EntryType::Workaround)
        } else if eq_chars(&t, &chars_of("state")) {
            Ok(EntryType::State)
        } else {
            let mut e = String::from_str("unknown entry type: ");
            let rest = string_of(&t);
            e.append(rest.as_str());
            Err(e)
        }
    }
}

/// Naming an entry type and reading the name back gives the type.
pub proof fn lemma_entry_type_round_trip(t: EntryType)
    ensures
        EntryType::from_name(t.name()) == Some(t),
{
    reveal_strlit("feedback");
    reveal_strlit("fact");
    reveal_strlit("workaround");
    reveal_strlit("state");
    assert("fact"@.len() != "feedback"@.len());
    assert("workaround"@[0] != "feedback"@[0] && "workaround"@.len() != "fact"@.len());
    assert("state"@.len() != "feedback"@.len() && "state"@.len() != "fact"@.len()
        && "state"@.len() != "workaround"@.len());
}

// ---------------------------------------------------------------------------
// Entries.
// ---------------------------------------------------------------------------

/// One memory entry. Dates are `YYYY-MM-DD` texts.
#[derive(Clone, Debug, PartialEq, Eq)]
pub struct MemoryEntry {
    pub slug: String,
    pub description: String,
    pub body: String,
    pub entry_type: EntryType,
    pub created: String,
    pub last_edited: String,
    pub superseded_by: String,
}

/// An entry as plain values.
pub struct EntryView {
    pub slug: Seq<char>,
    pub description: Seq<char>,
    pub body: Seq<char>,
    pub entry_type: EntryType,
    pub created: Seq<char>,
    pub last_edited: Seq<char>,
    pub superseded_by: Seq<char>,
}

impl View for MemoryEntry {
    type V = EntryView;

    open spec fn view(&self) -> EntryView {
        EntryView {
            slug: self.slug@,
            description: self.description@,
            body: self.body@,
            entry_type: self.entry_type,
            created: self.created@,
            last_edited: self.last_edited@,
            superseded_by: self.superseded_by@,
        }
    }
}

/// A frontmatter value is quoted when it holds a colon, a double quote or an
/// em-dash, or starts with a single quote.
pub open spec fn needs_quotes(s: Seq<char>) -> bool {
    s.contains(':') || s.contains('"') || s.contains('\u{2014}') || (s.len() > 0 && s[0] == '\'')
}

/// Inside quotes, a backslash and a double quote are escaped by a backslash.
pub open spec fn escape_char(c: char) -> Seq<char> {
    if c == '\\' {
        seq!['\\', '\\']
    } else if c == '"' {
        seq!['\\', '"']
    } else {
        seq![c]
    }
}

pub open spec fn escape_quoted(s: Seq<char>) -> Seq<char>
    decreases s.len(),
{
    if s.len() == 0 {
        Seq::empty()
    } else {
        escape_quoted(s.drop_last()) + escape_char(s.last())
    }
}

/// A frontmatter value as written: empty stays empty, a value that needs
/// quotes is quoted and escaped, any other is written bare.
pub open spec fn yaml_scalar(s: Seq<char>) -> Seq<char> {
    if s.len() == 0 {
        Seq::empty()
    } else if needs_quotes(s) {
        seq!['"'] + escape_quoted(s) + seq!['"']
    } else {
        s
    }
}

/// A frontmatter value as written.
pub fn yaml_escape(s: &str) -> (r: String)
    ensures
        r@ == yaml_scalar(s@),
{
    let v = chars_of(s);
    if v.len() == 0 {
        return String::new();
    }
    if contains_char(&v, ':') || contains_char(&v, '"') || contains_char(&v, '\u{2014}') || v[0] == '\'' {
        let mut out = String::new();
        push_char(&mut out, '"');
        let mut i: usize = 0;
        assert(v@.subrange(0, 0) =~= Seq::<char>::empty());
        while i < v.len()
            invariant
                i <= v@.len(),
                out@ == seq!['"'] + escape_quoted(v@.subrange(0, i as int)),
            decreases v.len() - i,
        {
            let c = v[i];
            if c == '\\' {
                push_char(&mut out, '\\');
                push_char(&mut out, '\\');
            } else if c == '"' {
                push_char(&mut out, '\\');
                push_char(&mut out, '"');
            } else {
                push_char(&mut out, c);
            }
            assert(v@.subrange(0, i + 1).drop_last() =~= v@.subrange(0, i as int));
            assert(out@ =~= seq!['"'] + escape_quoted(v@.subrange(0, i + 1)));
            i = i + 1;
        }
        push_char(&mut out, '"');
        assert(v@.subrange(0, v@.len() as int) =~= v@);
        out
    } else {
        string_of(&v)
    }
}

/// A body ends with a line feed on disk.
pub open spec fn with_final_newline(b: Seq<char>) -> Seq<char> {
    if b.len() > 0 && b.last() == '\n' {
        b
    } else {
        b.push('\n')
    }
}

/// The on-disk file of an entry: YAML frontmatter, a blank line, the body.
pub open spec fn render_entry(e: EntryView) -> Seq<char> {
    "---\n"@ + "description: "@ + yaml_scalar(e.description) + "\n"@ + "type: "@
        + e.entry_type.name() + "\n"@ + "created: "@ + e.created + "\n"@ + "last_edited: "@
        + e.last_edited + "\n"@ + "superseded_by: "@ + yaml_scalar(e.superseded_by) + "\n"@
        + "---\n\n"@ + with_final_newline(e.body)
}

impl MemoryEntry {
    /// Render the entry as its on-disk markdown file.
    pub fn render(&self) -> (r: String)
        ensures
            r@ == render_entry(self@),
    {
        let mut s = String::from_str("---\n");
        s.append("description: ");
        let d = yaml_escape(self.description.as_str());
        s.append(d.as_str());
        s.append("\n");
        s.append("type: ");
        s.append(self.entry_type.as_str());
        s.append("\n");
        s.append("created: ");
        s.append(self.created.as_str());
        s.append("\n");
        s.append("last_edited: ");
        s.append(self.last_edited.as_str());
        s.append("\n");
        s.append("superseded_by: ");
        let sb = yaml_escape(self.superseded_by.as_str());
        s.append(sb.as_str());
        s.append("\n");
        s.append("---\n\n");
        s.append(self.body.as_str());
        let b = chars_of(self.body.as_str());
        if !(b.len() > 0 && b[b.len() - 1] == '\n') {
            push_char(&mut s, '\n');
        }
        s
    }
}

// ---------------------------------------------------------------------------
// Parsing an entry.
// ---------------------------------------------------------------------------

/// What `{:?}` writes for a text: quoted, with escapes.
pub uninterp spec fn debug_text(s: Seq<char>) -> Seq<char>;

/// `<str as Debug>::fmt`, through `format!("{:?}")`.
#[verifier::external_body]
pub(crate) fn debug_quoted(s: &str) -> (r: String)
    ensures
        r@ == debug_text(s@),
{
    format!("{:?}", s)
}

/// After a leading `---\n`, the frontmatter runs to the first `\n---\n` and
/// the rest is the body.
pub open spec fn frontmatter_split(c: Seq<char>) -> Option<(Seq<char>, Seq<char>)> {
    if starts_with(c, "---\n"@) {
        let r = c.subrange("---\n"@.len() as int, c.len() as int);
        match find_first(r, "\n---\n"@) {
            Some(e) => Some((r.subrange(0, e), r.subrange(e + "\n---\n"@.len(), r.len() as int))),
            None => None,
        }
    } else {
        None
    }
}

/// One frontmatter line: the key before the first colon and the value after
/// it, both trimmed.
pub open spec fn frontmatter_pair(line: Seq<char>) -> Option<(Seq<char>, Seq<char>)> {
    let k = char_pos(line, ':');
    if k < line.len() {
        Some((trim(line.subrange(0, k)), trim(line.subrange(k + 1, line.len() as int))))
    } else {
        None
    }
}

/// The value the last line with this key gives it.
pub open spec fn frontmatter_get(ls: Seq<Seq<char>>, key: Seq<char>) -> Option<Seq<char>>
    decreases ls.len(),
{
    if ls.len() == 0 {
        None
    } else {
        match frontmatter_pair(ls.last()) {
            Some((k, v)) if k == key => Some(v),
            _ => frontmatter_get(ls.drop_last(), key),
        }
    }
}

pub open spec fn or_empty(o: Option<Seq<char>>) -> Seq<char> {
    match o {
        Some(v) => v,
        None => Seq::empty(),
    }
}

/// The largest `i32` and `u32`.
pub open spec fn i32_max() -> int {
    0x7fff_ffff
}

pub open spec fn u32_max() -> int {
    0xffff_ffff
}

/// The checks a `YYYY-MM-DD` date passes, in order, with the message of the
/// first that fails.
pub open spec fn ymd_check(s: Seq<char>) -> Result<(), Seq<char>> {
    let parts = split_on(s, '-');
    if parts.len() < 2 {
        Err("month"@)
    } else if parts.len() < 3 {
        Err("day"@)
    } else if parts.len() > 3 {
        Err("date "@ + debug_text(s) + ": extra components"@)
    } else {
        match parsed_number(parts[0], i32_max()) {
            None => Err("date "@ + debug_text(s) + ": year not a number"@),
            Some(y) => match parsed_number(parts[1], u32_max()) {
                None => Err("date "@ + debug_text(s) + ": month not a number"@),
                Some(m) => match parsed_number(parts[2], u32_max()) {
                    None => Err("date "@ + debug_text(s) + ": day not a number"@),
                    Some(d) => ymd_range_check(s, y, m, d),
                },
            },
        }
    }
}

/// The range checks of a date whose fields are numbers.
pub open spec fn ymd_range_check(s: Seq<char>, y: int, m: int, d: int) -> Result<(), Seq<char>> {
    if !(1 <= y <= 9999) {
        Err("date "@ + debug_text(s) + ": year out of range"@)
    } else if !(1 <= m <= 12) {
        Err("date "@ + debug_text(s) + ": month out of range"@)
    } else if !(1 <= d <= 31) {
        Err("date "@ + debug_text(s) + ": day out of range"@)
    } else {
        Ok(())
    }
}

fn check_ranges(s: &str, y: u64, m: u64, d: u64) -> (r: Result<(), String>)
    ensures
        match ymd_range_check(s@, y as int, m as int, d as int) {
            Ok(_) => r is Ok,
            Err(e) => r is Err && r->Err_0@ == e,
        },
{
    if !(1 <= y && y <= 9999) {
        return Err(date_error(s, ": year out of range"));
    }
    if !(1 <= m && m <= 12) {
        return Err(date_error(s, ": month out of range"));
    }
    if !(1 <= d && d <= 31) {
        return Err(date_error(s, ": day out of range"));
    }
    Ok(())
}

fn date_error(s: &str, what: &str) -> (r: String)
    ensures
        r@ == "date "@ + debug_text(s@) + what@,
{
    let mut e = String::from_str("date ");
    let d = debug_quoted(s);
    e.append(d.as_str());
    e.append(what);
    e
}

/// Check a `YYYY-MM-DD` date.
pub fn validate_ymd(s: &str) -> (r: Result<(), String>)
    ensures
        match ymd_check(s@) {
            Ok(_) => r is Ok,
            Err(m) => r is Err && r->Err_0@ == m,
        },
{
    let parts = split_exec(&chars_of(s), '-');
    proof { lemma_split_on_nonempty(s@, '-'); }
    assert(views(parts@)[0] == parts@[0]@);
    if parts.len() < 2 {
        return Err(String::from_str("month"));
    }
    if parts.len() < 3 {
        return Err(String::from_str("day"));
    }
    if parts.len() > 3 {
        return Err(date_error(s, ": extra components"));
    }
    assert(views(parts@)[1] == parts@[1]@ && views(parts@)[2] == parts@[2]@);

    let y = match parse_number(&parts[0], 0x7fff_ffff) {
        Some(y) => y,
        None => return Err(date_error(s, ": year not a number")),
    };
    let m = match parse_number(&parts[1], 0xffff_ffff) {
        Some(m) => m,
        None => return Err(date_error(s, ": month not a number")),
    };
    let d = match parse_number(&parts[2], 0xffff_ffff) {
        Some(d) => d,
        None => return Err(date_error(s, ": day not a number")),
    };
    check_ranges(s, y, m, d)
}

/// A frontmatter date: quotes and whitespace come off; an empty date is
/// today's; any other must pass the date checks.
pub open spec fn date_field(v: Seq<char>, today: Seq<char>) -> Result<Seq<char>, Seq<char>> {
    let t = trim_matches(trim(v), '"');
    if t.len() == 0 {
        Ok(today)
    } else {
        match ymd_check(t) {
            Ok(_) => Ok(t),
            Err(e) => Err(e),
        }
    }
}

/// A frontmatter date, with `today` for an empty one.
pub fn parse_date(s: &str, today: &str) -> (r: Result<String, String>)
    ensures
        match date_field(s@, today@) {
            Ok(d) => r is Ok && r->Ok_0@ == d,
            Err(e) => r is Err && r->Err_0@ == e,
        },
{
    let t = trim_matches_exec(&trim_exec(&chars_of(s)), '"');
    if t.len() == 0 {
        return Ok(string_of(&chars_of(today)));
    }
    let ts = string_of(&t);
    match validate_ymd(ts.as_str()) {
        Ok(_) => Ok(ts),
        Err(e) => Err(e),
    }
}

fn split_frontmatter(c: &[char]) -> (r: Option<(Vec<char>, Vec<char>)>)
    ensures
        match frontmatter_split(c@) {
            Some((f, b)) => match r {
                Some((x, y)) => x@ == f && y@ == b,
                None => false,
            },
            None => r is None,
        },
{
    let open_ = chars_of("---\n");
    if !starts_with_exec(c, &open_) {
        return None;
    }
    let rest = slice(c, open_.len(), c.len());
    let close = chars_of("\n---\n");
    match find(&rest, &close) {
        Some(e) => {
            proof { lemma_find_first(rest@, close@, e as int); }
            Some((slice(&rest, 0, e), slice(&rest, e + close.len(), rest.len())))
        },
        None => None,
    }
}

fn frontmatter_lookup(ls: &Vec<Vec<char>>, key: &str) -> (r: Option<Vec<char>>)
    ensures
        match frontmatter_get(views(ls@), key@) {
            Some(v) => r is Some && r->0@ == v,
            None => r is None,
        },
{
    let keyc = chars_of(key);
    let mut i: usize = ls.len();
    assert(views(ls@).subrange(0, i as int) =~= views(ls@));
    while i > 0
        invariant
            i <= ls@.len(),
            keyc@ == key@,
            frontmatter_get(views(ls@), key@) == frontmatter_get(views(ls@).subrange(0, i as int), key@),
        decreases i,
    {
        let line = &ls[i - 1];
        let ghost sub = views(ls@).subrange(0, i as int);
        assert(sub.last() == line@);
        assert(sub.drop_last() =~= views(ls@).subrange(0, i - 1));
        let k = char_pos_exec(line, ':');
        if k < line.len() {
            let key_part = trim_exec(&slice(line, 0, k));
            if eq_chars(&key_part, &keyc) {
                return Some(trim_exec(&slice(line, k + 1, line.len())));
            }
        }
        i = i - 1;
    }
    None
}

/// An entry read from its file, with `today` standing for an empty date.
pub open spec fn entry_result(slug: Seq<char>, content: Seq<char>, today: Seq<char>) -> Result<EntryView, Seq<char>> {
    match frontmatter_split(content) {
        None => Err("entry "@ + slug + ": missing YAML frontmatter"@),
        Some((fm, body)) => {
            let ls = lines(fm);
            let ty = match frontmatter_get(ls, "type"@) {
                Some(v) => v,
                None => "fact"@,
            };
            match EntryType::from_name(trim(ty)) {
                None => Err("unknown entry type: "@ + trim(ty)),
                Some(t) => match date_field(or_empty(frontmatter_get(ls, "created"@)), today) {
                    Err(e) => Err(e),
                    Ok(created) => match date_field(or_empty(frontmatter_get(ls, "last_edited"@)), today) {
                        Err(e) => Err(e),
                        Ok(last_edited) => Ok(EntryView {
                            slug,
                            description: trim_matches(or_empty(frontmatter_get(ls, "description"@)), '"'),
                            body: trim_matches_start(body, '\n'),
                            entry_type: t,
                            created,
                            last_edited,
                            superseded_by: trim_matches(or_empty(frontmatter_get(ls, "superseded_by"@)), '"'),
                        }),
                    },
                },
            }
        },
    }
}

pub open spec fn entry_result_view(r: Result<MemoryEntry, String>) -> Result<EntryView, Seq<char>> {
    match r {
        Ok(e) => Ok(e@),
        Err(m) => Err(m@),
    }
}

fn value_or_empty(o: Option<Vec<char>>) -> (r: Vec<char>)
    ensures
        r@ == or_empty(match o { Some(v) => Some(v@), None => None }),
{
    match o {
        Some(v) => v,
        None => Vec::new(),
    }
}

impl MemoryEntry {
    /// Parse an entry from its file, with `today` standing for an empty date.
    pub fn parse_on(slug: &str, content: &str, today: &str) -> (r: Result<MemoryEntry, String>)
        ensures
            entry_result_view(r) == entry_result(slug@, content@, today@),
    {
        let (fm, body) = match split_frontmatter(&chars_of(content)) {
            Some(p) => p,
            None => {
                let mut e = String::from_str("entry ");
                e.append(slug);
                e.append(": missing YAML frontmatter");
                return Err(e);
            },
        };
        let ls = lines_exec(&fm);
        let description = trim_matches_exec(&value_or_empty(frontmatter_lookup(&ls, "description")), '"');
        let ty = match frontmatter_lookup(&ls, "type") {
            Some(v) => v,
            None => chars_of("fact"),
        };
        let ty_s = string_of(&ty);
        let entry_type = match EntryType::parse(ty_s.as_str()) {
            Ok(t) => t,
            Err(e) => return Err(e),
        };
        let created_v = string_of(&value_or_empty(frontmatter_lookup(&ls, "created")));
        let created = match parse_date(created_v.as_str(), today) {
            Ok(d) => d,
            Err(e) => return Err(e),
        };
        let edited_v = string_of(&value_or_empty(frontmatter_lookup(&ls, "last_edited")));
        let last_edited = match parse_date(edited_v.as_str(), today) {
            Ok(d) => d,
            Err(e) => return Err(e),
        };
        let superseded_by = trim_matches_exec(&value_or_empty(frontmatter_lookup(&ls, "superseded_by")), '"');
        Ok(MemoryEntry {
            slug: string_of(&chars_of(slug)),
            description: string_of(&description),
            body: string_of(&trim_start_matches_exec(&body, '\n')),
            entry_type,
            created,
            last_edited,
            superseded_by: string_of(&superseded_by),
        })
    }
}

// ---------------------------------------------------------------------------
// The index.
// ---------------------------------------------------------------------------

/// One index line: the slug, the link title, and the description.
#[derive(Clone, Debug, PartialEq, Eq)]
pub struct IndexLine {
    pub slug: String,
    pub title: String,
    pub description: String,
}

pub struct IndexView {
    pub slug: Seq<char>,
    pub title: Seq<char>,
    pub description: Seq<char>,
}

impl View for IndexLine {
    type V = IndexView;

    open spec fn view(&self) -> IndexView {
        IndexView { slug: self.slug@, title: self.title@, description: self.description@ }
    }
}

pub open spec fn index_views(v: Seq<IndexLine>) -> Seq<IndexView> {
    v.map_values(|l: IndexLine| l@)
}

/// `- [<Title>](<slug>.md): <description>` and a line feed.
pub open spec fn index_bullet(l: IndexView) -> Seq<char> {
    "- ["@ + l.title + "]("@ + l.slug + ".md): "@ + l.description + "\n"@
}

pub open spec fn index_bullets(ls: Seq<IndexView>) -> Seq<char>
    decreases ls.len(),
{
    if ls.len() == 0 {
        Seq::empty()
    } else {
        index_bullets(ls.drop_last()) + index_bullet(ls.last())
    }
}

/// The index file: a heading line, a blank line, one bullet per entry.
pub open spec fn index_text(ls: Seq<IndexView>) -> Seq<char> {
    "# memory index \u{2014} one bullet per entry.\n\n"@ + index_bullets(ls)
}

/// Render the index file.
pub fn render_index(lines: &[IndexLine]) -> (r: String)
    ensures
        r@ == index_text(index_views(lines@)),
{
    let mut s = String::from_str("# memory index \u{2014} one bullet per entry.\n\n");
    let mut i: usize = 0;
    assert(index_views(lines@).subrange(0, 0) =~= Seq::<IndexView>::empty());
    while i < lines.len()
        invariant
            i <= lines@.len(),
            s@ == "# memory index \u{2014} one bullet per entry.\n\n"@ + index_bullets(index_views(lines@).subrange(0, i as int)),
        decreases lines.len() - i,
    {
        let l = &lines[i];
        s.append("- [");
        s.append(l.title.as_str());
        s.append("](");
        s.append(l.slug.as_str());
        s.append(".md): ");
        s.append(l.description.as_str());
        s.append("\n");
        let ghost sub = index_views(lines@).subrange(0, i + 1);
        assert(sub.drop_last() =~= index_views(lines@).subrange(0, i as int));
        assert(sub.last() == l@);
        i = i + 1;
    }
    assert(index_views(lines@).subrange(0, lines@.len() as int) =~= index_views(lines@));
    s
}

/// The link target without its `.md`.
pub open spec fn strip_md(link: Seq<char>) -> Seq<char> {
    if link.len() >= 3 && link.subrange(link.len() - 3, link.len() as int) == ".md"@ {
        link.subrange(0, link.len() - 3)
    } else {
        link
    }
}

/// One line of the index, if it is a bullet of the index's shape.
pub open spec fn index_entry(line: Seq<char>) -> Option<IndexView> {
    let t = trim(line);
    if !starts_with(t, "- ["@) {
        None
    } else {
        let rest = t.subrange(3, t.len() as int);
        match find_first(rest, "]("@) {
            None => None,
            Some(cb) => {
                let after = rest.subrange(cb + 2, rest.len() as int);
                let cp = char_pos(after, ')');
                if cp < after.len() {
                    Some(IndexView {
                        slug: strip_md(after.subrange(0, cp)),
                        title: rest.subrange(0, cb),
                        description: trim(trim_matches_start(after.subrange(cp + 1, after.len() as int), ':')),
                    })
                } else {
                    None
                }
            },
        }
    }
}

pub open spec fn index_entries(ls: Seq<Seq<char>>) -> Seq<IndexView>
    decreases ls.len(),
{
    if ls.len() == 0 {
        Seq::empty()
    } else {
        index_entries(ls.drop_last()) + match index_entry(ls.last()) {
            Some(e) => seq![e],
            None => Seq::<IndexView>::empty(),
        }
    }
}

fn index_line_of(line: &[char]) -> (r: Option<IndexLine>)
    ensures
        match index_entry(line@) {
            Some(e) => r is Some && r->0@ == e,
            None => r is None,
        },
{
    let t = trim_exec(line);
    let open_ = chars_of("- [");
    proof { reveal_strlit("- ["); reveal_strlit("]("); }
    if !starts_with_exec(&t, &open_) {
        return None;
    }
    let rest = slice(&t, 3, t.len());
    let close = chars_of("](");
    let cb = match find(&rest, &close) {
        Some(cb) => cb,
        None => return None,
    };
    proof { lemma_find_first(rest@, close@, cb as int); }
    let after = slice(&rest, cb + 2, rest.len());
    let cp = char_pos_exec(&after, ')');
    if cp >= after.len() {
        return None;
    }
    let link = slice(&after, 0, cp);
    let md = chars_of(".md");
    proof { reveal_strlit(".md"); }
    let slug = if link.len() >= 3 && eq_chars(&slice(&link, link.len() - 3, link.len()), &md) {
        slice(&link, 0, link.len() - 3)
    } else {
        link
    };
    let description = trim_exec(&trim_start_matches_exec(&slice(&after, cp + 1, after.len()), ':'));
    Some(IndexLine { slug: string_of(&slug), title: string_of(&slice(&rest, 0, cb)), description: string_of(&description) })
}

/// Read the index file: every line of the bullet shape, in order.
pub fn parse_index(content: &str) -> (out: Vec<IndexLine>)
    ensures
        index_views(out@) == index_entries(lines(content@)),
{
    let ls = lines_exec(&chars_of(content));
    let mut out: Vec<IndexLine> = Vec::new();
    let mut i: usize = 0;
    assert(views(ls@).subrange(0, 0) =~= Seq::<Seq<char>>::empty());
    while i < ls.len()
        invariant
            i <= ls@.len(),
            views(ls@) == lines(content@),
            index_views(out@) == index_entries(views(ls@).subrange(0, i as int)),
        decreases ls.len() - i,
    {
        let ghost sub = views(ls@).subrange(0, i + 1);
        assert(sub.drop_last() =~= views(ls@).subrange(0, i as int));
        assert(sub.last() == ls@[i as int]@);
        let ghost before = index_views(out@);
        match index_line_of(&ls[i]) {
            Some(l) => {
                out.push(l);
                assert(index_views(out@) =~= index_entries(sub));
            },
            None => {
                assert(index_views(out@) =~= index_entries(sub));
            },
        }
        i = i + 1;
    }
    assert(views(ls@).subrange(0, ls@.len() as int) =~= views(ls@));
    out
}

/// A project's store name: its working directory with every `/` written as
/// `-`.
pub open spec fn encoded(cwd: Seq<char>) -> Seq<char> {
    cwd.map_values(|c: char| if c == '/' { '-' } else { c })
}

pub fn encode_cwd(cwd: &str) -> (r: String)
    ensures
        r@ == encoded(cwd@),
{
    let v = chars_of(cwd);
    let mut out: Vec<char> = Vec::new();
    let mut i: usize = 0;
    while i < v.len()
        invariant
            i <= v@.len(),
            out@ == encoded(v@.subrange(0, i as int)),
        decreases v.len() - i,
    {
        let c = v[i];
        out.push(if c == '/' { '-' } else { c });
        assert(out@ =~= encoded(v@.subrange(0, i + 1)));
        i = i + 1;
    }
    assert(v@.subrange(0, v@.len() as int) =~= v@);
    string_of(&out)
}

/// The title of an entry: the first body line with text once its leading
/// `#` markers and whitespace are gone, or the slug.
pub open spec fn title_from(ls: Seq<Seq<char>>, slug: Seq<char>) -> Seq<char>
    decreases ls.len(),
{
    if ls.len() == 0 {
        slug
    } else {
        let t = trim(trim_matches_start(ls[0], '#'));
        if t.len() > 0 {
            t
        } else {
            title_from(ls.drop_first(), slug)
        }
    }
}

pub fn derive_title(entry: &MemoryEntry) -> (r: String)
    ensures
        r@ == title_from(lines(entry.body@), entry.slug@),
{
    let ls = lines_exec(&chars_of(entry.body.as_str()));
    let mut i: usize = 0;
    assert(views(ls@).subrange(0, views(ls@).len() as int) =~= views(ls@));
    while i < ls.len()
        invariant
            i <= ls@.len(),
            views(ls@) == lines(entry.body@),
            title_from(views(ls@), entry.slug@) == title_from(views(ls@).subrange(i as int, ls@.len() as int), entry.slug@),
        decreases ls.len() - i,
    {
        let ghost sub = views(ls@).subrange(i as int, ls@.len() as int);
        assert(sub[0] == ls@[i as int]@);
        assert(sub.drop_first() =~= views(ls@).subrange(i + 1, ls@.len() as int));
        let t = trim_exec(&trim_start_matches_exec(&ls[i], '#'));
        if t.len() > 0 {
            return string_of(&t);
        }
        i = i + 1;
    }
    string_of(&chars_of(entry.slug.as_str()))
}

/// The index is in slug order.
pub open spec fn sorted_by_slug(ls: Seq<IndexView>) -> bool {
    forall|i: int, j: int| 0 <= i < j < ls.len() ==> !text_lt(#[trigger] ls[j].slug, #[trigger] ls[i].slug)
}

/// The lines carrying a slug, in their order: what a stable sort by slug
/// keeps of them.
pub open spec fn with_slug(ls: Seq<IndexView>, w: Seq<char>) -> Seq<IndexView>
    decreases ls.len(),
{
    if ls.len() == 0 {
        Seq::empty()
    } else if ls.last().slug == w {
        with_slug(ls.drop_last(), w).push(ls.last())
    } else {
        with_slug(ls.drop_last(), w)
    }
}

pub proof fn lemma_with_slug_concat(a: Seq<IndexView>, b: Seq<IndexView>, w: Seq<char>)
    ensures
        with_slug(a + b, w) == with_slug(a, w) + with_slug(b, w),
    decreases b.len(),
{
    if b.len() == 0 {
        assert(a + b =~= a);
        assert(with_slug(a, w) + with_slug(b, w) =~= with_slug(a, w));
    } else {
        lemma_with_slug_concat(a, b.drop_last(), w);
        assert((a + b).drop_last() =~= a + b.drop_last());
        assert((a + b).last() == b.last());
        if b.last().slug == w {
            assert(with_slug(a, w) + with_slug(b, w) =~= (with_slug(a, w) + with_slug(b.drop_last(), w)).push(b.last()));
        }
    }
}

pub proof fn lemma_with_slug_none(a: Seq<IndexView>, w: Seq<char>)
    requires
        forall|k: int| 0 <= k < a.len() ==> (#[trigger] a[k]).slug != w,
    ensures
        with_slug(a, w) == Seq::<IndexView>::empty(),
    decreases a.len(),
{
    if a.len() > 0 {
        lemma_with_slug_none(a.drop_last(), w);
    }
}

/// Where the insertion sort puts a line: after every line whose slug is not
/// greater, before the first whose slug is.
proof fn lemma_insert_keeps_slug_order(ob: Seq<IndexView>, p: int, x: IndexView, w: Seq<char>)
    requires
        0 <= p <= ob.len(),
        forall|k: int| p <= k < ob.len() ==> text_lt(x.slug, (#[trigger] ob[k]).slug),
    ensures
        with_slug(ob.insert(p, x), w) == if x.slug == w {
            with_slug(ob, w).push(x)
        } else {
            with_slug(ob, w)
        },
{
    let a = ob.subrange(0, p);
    let b = ob.subrange(p, ob.len() as int);
    assert(ob =~= a + b);
    assert(ob.insert(p, x) =~= a.push(x) + b);
    lemma_with_slug_concat(a.push(x), b, w);
    lemma_with_slug_concat(a, b, w);
    assert(a.push(x).drop_last() =~= a);
    if x.slug == w {
        assert forall|k: int| 0 <= k < b.len() implies (#[trigger] b[k]).slug != w by {
            assert(b[k] == ob[p + k]);
            lemma_text_lt_total(x.slug, ob[p + k].slug);
        }
        lemma_with_slug_none(b, w);
        assert(with_slug(ob, w) =~= with_slug(a, w));
        assert(with_slug(a.push(x), w) + with_slug(b, w) =~= with_slug(a, w).push(x));
    }
}

/// Sort index lines by slug, stably: lines that share a slug keep their
/// order.
pub fn sort_by_slug(v: Vec<IndexLine>) -> (out: Vec<IndexLine>)
    ensures
        sorted_by_slug(index_views(out@)),
        index_views(out@).to_multiset() == index_views(v@).to_multiset(),
        forall|w: Seq<char>| #[trigger] with_slug(index_views(out@), w) == with_slug(index_views(v@), w),
{
    let mut out: Vec<IndexLine> = Vec::new();
    let ghost all = index_views(v@);
    proof {
        broadcast use vstd::seq_lib::group_to_multiset_ensures;
        assert(index_views(out@) =~= all.subrange(0, 0));
    }
    let n = v.len();
    let mut i: usize = 0;
    while i < n
        invariant
            n == all.len(),
            all == index_views(v@),
            i <= n,
            sorted_by_slug(index_views(out@)),
            index_views(out@).to_multiset() == all.subrange(0, i as int).to_multiset(),
            forall|w: Seq<char>| #[trigger] with_slug(index_views(out@), w) == with_slug(all.subrange(0, i as int), w),
        decreases n - i,
    {
        let x = clone_line(&v[i]);
        assert(x@ == all[i as int]);
        let mut p: usize = 0;
        while p < out.len() && !text_less(&chars_of(x.slug.as_str()), &chars_of(out[p].slug.as_str()))
            invariant
                p <= out@.len(),
                forall|k: int| 0 <= k < p ==> !text_lt(x@.slug, (#[trigger] index_views(out@)[k]).slug),
            decreases out.len() - p,
        {
            p = p + 1;
        }
        let ghost ob = index_views(out@);
        proof {
            if p < ob.len() {
                assert(text_lt(x@.slug, ob[p as int].slug));
                assert forall|k: int| p <= k < ob.len() implies text_lt(x@.slug, #[trigger] ob[k].slug) by {
                    if k > p {
                        assert(!text_lt(ob[k].slug, ob[p as int].slug));
                        lemma_text_lt_total(ob[k].slug, ob[p as int].slug);
                        if ob[k].slug != ob[p as int].slug {
                            lemma_text_lt_trans(x@.slug, ob[p as int].slug, ob[k].slug);
                        }
                    }
                }
            }
        }
        let ghost xv = x@;
        out.insert(p, x);
        proof {
            let na = index_views(out@);
            let sub = all.subrange(0, i + 1);
            assert(sub =~= all.subrange(0, i as int).push(xv));
            assert(na =~= ob.insert(p as int, xv));
            vstd::seq_lib::to_multiset_insert(ob, p as int, xv);
            vstd::seq_lib::to_multiset_build(all.subrange(0, i as int), xv);
            assert forall|i2: int, j: int| 0 <= i2 < j < na.len() implies !text_lt(#[trigger] na[j].slug, #[trigger] na[i2].slug) by {
                if j < p {
                    assert(na[i2] == ob[i2] && na[j] == ob[j]);
                } else if j == p {
                    assert(na[i2] == ob[i2]);
                    lemma_text_lt_total(xv.slug, ob[i2].slug);
                } else if i2 < p {
                    assert(na[i2] == ob[i2] && na[j] == ob[j - 1]);
                    if i2 < j - 1 {
                        assert(!text_lt(ob[j - 1].slug, ob[i2].slug));
                    }
                } else if i2 == p {
                    assert(na[j] == ob[j - 1]);
                    lemma_text_lt_total(ob[j - 1].slug, xv.slug);
                } else {
                    assert(na[i2] == ob[i2 - 1] && na[j] == ob[j - 1]);
                }
            }
            assert forall|w: Seq<char>| #[trigger] with_slug(na, w) == with_slug(sub, w) by {
                lemma_insert_keeps_slug_order(ob, p as int, xv, w);
                assert(sub.drop_last() =~= all.subrange(0, i as int));
                assert(sub.last() == xv);
            }
            assert(index_views(out@).to_multiset() =~= sub.to_multiset());
        }
        i = i + 1;
    }
    assert(all.subrange(0, n as int) =~= all);
    out
}

/// The first line of the index carrying this slug, or the index's length.
pub open spec fn slug_pos(ls: Seq<IndexView>, slug: Seq<char>) -> int
    decreases ls.len(),
{
    if ls.len() == 0 {
        0
    } else if ls[0].slug == slug {
        0
    } else {
        1 + slug_pos(ls.drop_first(), slug)
    }
}

pub proof fn lemma_slug_pos(ls: Seq<IndexView>, slug: Seq<char>)
    ensures
        0 <= slug_pos(ls, slug) <= ls.len(),
        slug_pos(ls, slug) < ls.len() ==> ls[slug_pos(ls, slug)].slug == slug,
        forall|k: int| 0 <= k < slug_pos(ls, slug) ==> ls[k].slug != slug,
    decreases ls.len(),
{
    if ls.len() > 0 && ls[0].slug != slug {
        lemma_slug_pos(ls.drop_first(), slug);
        assert forall|k: int| 0 <= k < slug_pos(ls, slug) implies ls[k].slug != slug by {
            if k > 0 {
                assert(ls[k] == ls.drop_first()[k - 1]);
            }
        }
    }
}

/// The index line an entry owns.
pub open spec fn line_for(e: EntryView) -> IndexView {
    IndexView { slug: e.slug, title: title_from(lines(e.body), e.slug), description: e.description }
}

/// The index after writing an entry: its line replaces the line with its slug
/// in place; a new slug is added and the index sorted by slug.
pub fn upsert_line(index: Vec<IndexLine>, entry: &MemoryEntry) -> (out: Vec<IndexLine>)
    ensures
        upserted(index_views(index@), entry@, index_views(out@)),
{
    let mut lines = index;
    let new_line = IndexLine {
        slug: entry.slug.clone(),
        title: derive_title(entry),
        description: entry.description.clone(),
    };
    let ghost old_v = index_views(lines@);
    let ghost nl = line_for(entry@);
    assert(new_line@ == nl);
    proof { lemma_slug_pos(old_v, entry@.slug); }
    let mut i: usize = 0;
    while i < lines.len()
        invariant
            i <= lines@.len(),
            old_v == index_views(lines@),
            old_v == index_views(index@),
            new_line@ == nl,
            nl == line_for(entry@),
            forall|k: int| 0 <= k < i ==> (#[trigger] old_v[k]).slug != entry@.slug,
        decreases lines.len() - i,
    {
        if lines[i].slug == entry.slug {
            assert(old_v[i as int].slug == entry@.slug);
            proof {
                lemma_slug_pos(old_v, entry@.slug);
                let sp = slug_pos(old_v, entry@.slug);
                if sp < i {
                    assert(old_v[sp].slug == entry@.slug);
                }
            }
            assert(slug_pos(old_v, entry@.slug) == i);
            lines.set(i, new_line);
            assert(index_views(lines@) =~= old_v.update(i as int, nl));
            return lines;
        }
        assert(old_v[i as int].slug != entry@.slug);
        i = i + 1;
    }
    proof {
        let sp = slug_pos(old_v, entry@.slug);
        if sp < old_v.len() {
            assert(old_v[sp].slug == entry@.slug);
        }
    }
    lines.push(new_line);
    assert(index_views(lines@) =~= old_v.push(nl));
    sort_by_slug(lines)
}

/// The lines of the index whose slug is not `slug`, in order.
pub open spec fn without_slug(ls: Seq<IndexView>, slug: Seq<char>) -> Seq<IndexView>
    decreases ls.len(),
{
    if ls.len() == 0 {
        ls
    } else if ls.last().slug == slug {
        without_slug(ls.drop_last(), slug)
    } else {
        without_slug(ls.drop_last(), slug).push(ls.last())
    }
}

fn clone_line(l: &IndexLine) -> (r: IndexLine)
    ensures
        r@ == l@,
{
    IndexLine { slug: l.slug.clone(), title: l.title.clone(), description: l.description.clone() }
}

/// The index after deleting an entry: every line with its slug goes; the
/// flag tells whether any went.
pub fn remove_line(lines: &Vec<IndexLine>, slug: &str) -> (r: (Vec<IndexLine>, bool))
    ensures
        index_views(r.0@) == without_slug(index_views(lines@), slug@),
        r.1 == (r.0@.len() < lines@.len()),
{
    let s = chars_of(slug);
    let mut out: Vec<IndexLine> = Vec::new();
    let mut i: usize = 0;
    assert(index_views(lines@).subrange(0, 0) =~= Seq::<IndexView>::empty());
    while i < lines.len()
        invariant
            i <= lines@.len(),
            s@ == slug@,
            index_views(out@) == without_slug(index_views(lines@).subrange(0, i as int), slug@),
            out@.len() <= i,
        decreases lines.len() - i,
    {
        let ghost sub = index_views(lines@).subrange(0, i + 1);
        assert(sub.drop_last() =~= index_views(lines@).subrange(0, i as int));
        assert(sub.last() == lines@[i as int]@);
        if !eq_chars(&chars_of(lines[i].slug.as_str()), &s) {
            let ghost before = index_views(out@);
            out.push(clone_line(&lines[i]));
            assert(index_views(out@) =~= before.push(lines@[i as int]@));
        }
        i = i + 1;
    }
    assert(index_views(lines@).subrange(0, lines@.len() as int) =~= index_views(lines@));
    let changed = out.len() < lines.len();
    (out, changed)
}

// ---------------------------------------------------------------------------
// What reading gives back of writing.
// ---------------------------------------------------------------------------

/// An index line whose parts the bullet shape can carry: a title without
/// `](` or a line feed, a slug without `)` or a line feed, and a description
/// without a line feed or whitespace at its ends.
pub open spec fn index_line_ok(l: IndexView) -> bool {
    &&& !contains(l.title, "]("@)
    &&& !l.title.contains('\n')
    &&& !l.slug.contains(')')
    &&& !l.slug.contains('\n')
    &&& !l.description.contains('\n')
    &&& trim(l.description) == l.description
}

proof fn lemma_bullet_entry(l: IndexView)
    requires
        index_line_ok(l),
    ensures
        index_bullet(l) == ("- ["@ + l.title + "]("@ + l.slug + ".md): "@ + l.description).push('\n'),
        !("- ["@ + l.title + "]("@ + l.slug + ".md): "@ + l.description).contains('\n'),
        index_entry(strip_cr("- ["@ + l.title + "]("@ + l.slug + ".md): "@ + l.description)) == Some(l),
{
    reveal_strlit("- [");
    reveal_strlit("](");
    reveal_strlit(".md): ");
    reveal_strlit("\n");
    reveal_strlit(".md");
    let t = l.title;
    let sl = l.slug;
    let d = l.description;
    let line = "- ["@ + t + "]("@ + sl + ".md): "@ + d;
    assert(index_bullet(l) =~= line.push('\n'));
    let lt = t.len() as int;
    let ls = sl.len() as int;
    assert(line.len() == 3 + lt + 2 + ls + 6 + d.len());
    assert forall|k: int| 0 <= k < line.len() implies line[k] != '\n' by {
        if 3 <= k < 3 + lt {
            assert(line[k] == t[k - 3]);
            assert(!t.contains('\n') ==> t[k - 3] != '\n');
        } else if 3 + lt + 2 <= k < 3 + lt + 2 + ls {
            assert(line[k] == sl[k - 5 - lt]);
        } else if 3 + lt + 2 + ls + 6 <= k {
            assert(line[k] == d[k - 11 - lt - ls]);
        }
    }
    if d.len() > 0 {
        lemma_trimmed_ends(d);
    }
    assert(strip_cr(line) == line) by {
        if d.len() > 0 {
            assert(line.last() == d.last());
        } else {
            assert(line.last() == ' ');
        }
    }
    // What `trim` leaves of the line, and what follows `- [` in it.
    let tail: Seq<char> = if d.len() > 0 { seq![':', ' '] + d } else { seq![':'] };
    let tr = "- ["@ + t + "]("@ + sl + seq!['.', 'm', 'd', ')'] + tail;
    assert(trim(line) == tr) by {
        if d.len() > 0 {
            assert(line =~= tr);
            lemma_trim_noop(line);
        } else {
            assert(line =~= tr.push(' '));
            assert(trim_start(line) == line);
            assert(line.drop_last() =~= tr);
            assert(trim_end(line) == trim_end(tr));
            assert(trim_end(tr) == tr);
        }
    }
    assert(starts_with(tr, "- ["@)) by {
        assert(tr.subrange(0, 3) =~= "- ["@);
    }
    let rest = tr.subrange(3, tr.len() as int);
    assert(rest =~= t + "]("@ + sl + seq!['.', 'm', 'd', ')'] + tail);
    assert(is_first_occurrence(rest, "]("@, lt)) by {
        assert(rest.subrange(lt, lt + 2) =~= "]("@);
        assert forall|j: int| 0 <= j < lt implies !occurs_at(rest, "]("@, j) by {
            if j + 2 <= lt {
                if occurs_at(rest, "]("@, j) {
                    assert(t.subrange(j, j + 2) =~= rest.subrange(j, j + 2));
                    assert(occurs_at(t, "]("@, j));
                }
            } else {
                assert(rest[j + 1] == ']');
                if occurs_at(rest, "]("@, j) {
                    assert(rest.subrange(j, j + 2)[1] == rest[j + 1]);
                }
            }
        }
    }
    lemma_find_first(rest, "]("@, lt);
    let after = rest.subrange(lt + 2, rest.len() as int);
    assert(after =~= sl + seq!['.', 'm', 'd', ')'] + tail);
    lemma_char_pos_at(after, ')', ls + 3);
    assert(after.subrange(0, ls + 3) =~= sl + ".md"@);
    assert(strip_md(after.subrange(0, ls + 3)) == sl) by {
        let link = after.subrange(0, ls + 3);
        assert(link.subrange(link.len() - 3, link.len() as int) =~= ".md"@);
        assert(link.subrange(0, link.len() - 3) =~= sl);
    }
    assert(rest.subrange(0, lt) =~= t);
    let after_close = after.subrange(ls + 4, after.len() as int);
    assert(after_close =~= tail);
    if d.len() > 0 {
        assert(tail.drop_first() =~= seq![' '] + d);
        assert(trim_matches_start(tail, ':') == trim_matches_start(seq![' '] + d, ':'));
        assert(trim_matches_start(seq![' '] + d, ':') == seq![' '] + d);
        lemma_trim_after_ws(seq![' '], d);
    } else {
        assert(tail.drop_first() =~= Seq::<char>::empty());
        assert(trim_matches_start(tail, ':') == trim_matches_start(Seq::<char>::empty(), ':'));
        assert(trim(Seq::<char>::empty()) =~= Seq::<char>::empty());
        assert(d =~= Seq::<char>::empty());
    }
}

proof fn lemma_index_entries_concat(a: Seq<Seq<char>>, b: Seq<Seq<char>>)
    ensures
        index_entries(a + b) == index_entries(a) + index_entries(b),
    decreases b.len(),
{
    if b.len() == 0 {
        assert(a + b =~= a);
        assert(index_entries(a) + index_entries(b) =~= index_entries(a));
    } else {
        lemma_index_entries_concat(a, b.drop_last());
        assert((a + b).drop_last() =~= a + b.drop_last());
        assert((a + b).last() == b.last());
        let tail = match index_entry(b.last()) {
            Some(e) => seq![e],
            None => Seq::<IndexView>::empty(),
        };
        assert(index_entries(a) + index_entries(b.drop_last()) + tail =~= index_entries(a) + (index_entries(b.drop_last()) + tail));
    }
}

proof fn lemma_bullets_parse(ls: Seq<IndexView>)
    requires
        forall|i: int| 0 <= i < ls.len() ==> index_line_ok(#[trigger] ls[i]),
    ensures
        index_entries(lines(index_bullets(ls))) == ls,
        ls.len() > 0 ==> index_bullets(ls).len() > 0 && index_bullets(ls).last() == '\n',
    decreases ls.len(),
{
    if ls.len() == 0 {
        lemma_lines_empty();
        assert(index_entries(Seq::<Seq<char>>::empty()) =~= ls);
    } else {
        let init = ls.drop_last();
        assert forall|i: int| 0 <= i < init.len() implies index_line_ok(#[trigger] init[i]) by {
            assert(init[i] == ls[i]);
        }
        lemma_bullets_parse(init);
        let l = ls.last();
        assert(index_line_ok(ls[ls.len() - 1]));
        lemma_bullet_entry(l);
        let line = "- ["@ + l.title + "]("@ + l.slug + ".md): "@ + l.description;
        lemma_lines_one(line);
        let b = index_bullets(init);
        assert(index_entries(seq![strip_cr(line)]) =~= seq![l]) by {
            assert(seq![strip_cr(line)].drop_last() =~= Seq::<Seq<char>>::empty());
            assert(index_entries(Seq::<Seq<char>>::empty()) =~= Seq::<IndexView>::empty());
        }
        if init.len() == 0 {
            assert(b =~= Seq::<char>::empty());
            assert(index_bullets(ls) =~= line.push('\n'));
            assert(seq![l] =~= ls);
        } else {
            lemma_lines_concat(b, line.push('\n'));
            lemma_index_entries_concat(lines(b), seq![strip_cr(line)]);
            assert(init.push(l) =~= ls);
        }
        assert(index_bullets(ls).last() == '\n');
    }
}

/// Reading the rendered index gives back its lines, for lines whose parts
/// the bullet shape can carry.
pub proof fn lemma_index_round_trip(ls: Seq<IndexView>)
    requires
        forall|i: int| 0 <= i < ls.len() ==> index_line_ok(#[trigger] ls[i]),
    ensures
        index_entries(lines(index_text(ls))) == ls,
{
    reveal_strlit("# memory index \u{2014} one bullet per entry.\n\n");
    reveal_strlit("# memory index \u{2014} one bullet per entry.");
    let h = "# memory index \u{2014} one bullet per entry.\n\n"@;
    let h1 = "# memory index \u{2014} one bullet per entry."@;
    assert(h =~= h1.push('\n') + seq!['\n']);
    assert(!h1.contains('\n')) by {
        assert forall|k: int| 0 <= k < h1.len() implies h1[k] != '\n' by {}
    }
    lemma_lines_one(h1);
    lemma_lines_one(Seq::<char>::empty());
    assert(Seq::<char>::empty().push('\n') =~= seq!['\n']);
    lemma_lines_concat(h1.push('\n'), seq!['\n']);
    assert(strip_cr(h1) == h1);
    assert(strip_cr(Seq::<char>::empty()) =~= Seq::<char>::empty());
    let hl = lines(h);
    assert(hl =~= seq![h1, Seq::<char>::empty()]);
    assert(index_entry(h1) is None) by {
        lemma_trim_noop(h1);
        assert(trim(h1)[0] == '#');
        assert("- ["@[0] == '-') by { reveal_strlit("- ["); }
        reveal_strlit("- [");
        assert(trim(h1).subrange(0, 3)[0] == '#');
        if starts_with(trim(h1), "- ["@) {
            assert(trim(h1).subrange(0, 3)[0] == "- ["@[0]);
        }
    }
    assert(index_entry(Seq::<char>::empty()) is None) by {
        assert(trim(Seq::<char>::empty()) =~= Seq::<char>::empty());
        reveal_strlit("- [");
    }
    assert(index_entries(hl) =~= Seq::<IndexView>::empty()) by {
        assert(hl.drop_last() =~= seq![h1]);
        assert(hl.last() == Seq::<char>::empty());
        assert(seq![h1].drop_last() =~= Seq::<Seq<char>>::empty());
        assert(seq![h1].last() == h1);
        assert(index_entries(Seq::<Seq<char>>::empty()) =~= Seq::<IndexView>::empty());
        assert(index_entries(seq![h1]) =~= Seq::<IndexView>::empty());
    }
    lemma_bullets_parse(ls);
    lemma_lines_concat(h, index_bullets(ls));
    lemma_index_entries_concat(hl, lines(index_bullets(ls)));
    assert(Seq::<IndexView>::empty() + ls =~= ls);
}

// ---------------------------------------------------------------------------
// Today's date.
// ---------------------------------------------------------------------------

pub open spec fn leap_year(y: int) -> bool {
    (y % 4 == 0 && y % 100 != 0) || y % 400 == 0
}

pub open spec fn year_days(y: int) -> int {
    if leap_year(y) { 366 } else { 365 }
}

pub open spec fn month_days(y: int, m: int) -> int {
    if m == 2 {
        if leap_year(y) { 29 } else { 28 }
    } else if m == 4 || m == 6 || m == 9 || m == 11 {
        30
    } else {
        31
    }
}

/// Days from 1970-01-01 to the first day of year `y`.
pub open spec fn days_to_year(y: int) -> int
    decreases y - 1970,
{
    if y <= 1970 { 0 } else { days_to_year(y - 1) + year_days(y - 1) }
}

/// Days from the first of the year to the first day of month `m`.
pub open spec fn days_to_month(y: int, m: int) -> int
    decreases m,
{
    if m <= 1 { 0 } else { days_to_month(y, m - 1) + month_days(y, m - 1) }
}

/// `(y, m, d)` is the date `days` days after 1970-01-01.
pub open spec fn is_date_of(days: int, y: int, m: int, d: int) -> bool {
    &&& y >= 1970
    &&& 1 <= m <= 12
    &&& 1 <= d <= month_days(y, m)
    &&& days_to_year(y) + days_to_month(y, m) + d - 1 == days
}

/// The decimal digits of `n`, at least `w` of them, zero-padded.
pub open spec fn padded(n: nat, w: nat) -> Seq<char>
    decreases w, n,
{
    if n < 10 && w <= 1 {
        seq![(('0' as u32) + n) as char]
    } else {
        padded(n / 10, if w > 0 { (w - 1) as nat } else { 0 }).push((('0' as u32) + n % 10) as char)
    }
}

fn pad_number(n: u64, w: u64) -> (r: String)
    ensures
        r@ == padded(n as nat, w as nat),
    decreases w, n,
{
    let c = char_from_digit(n % 10);
    if n < 10 && w <= 1 {
        let mut s = String::new();
        push_char(&mut s, c);
        assert(s@ =~= padded(n as nat, w as nat));
        s
    } else {
        let mut s = pad_number(n / 10, if w > 0 { w - 1 } else { 0 });
        push_char(&mut s, c);
        s
    }
}

fn char_from_digit(d: u64) -> (c: char)
    requires
        d < 10,
    ensures
        c == (('0' as u32) + d) as char,
{
    if d == 0 { '0' } else if d == 1 { '1' } else if d == 2 { '2' } else if d == 3 { '3' }
    else if d == 4 { '4' } else if d == 5 { '5' } else if d == 6 { '6' } else if d == 7 { '7' }
    else if d == 8 { '8' } else { '9' }
}

fn is_leap(y: u64) -> (b: bool)
    ensures
        b == leap_year(y as int),
{
    (y % 4 == 0 && y % 100 != 0) || y % 400 == 0
}

fn year_length(y: u64) -> (n: u64)
    ensures
        n == year_days(y as int),
{
    if is_leap(y) { 366 } else { 365 }
}

fn month_length(y: u64, m: u64) -> (n: u64)
    ensures
        n == month_days(y as int, m as int),
{
    if m == 2 {
        if is_leap(y) { 29 } else { 28 }
    } else if m == 4 || m == 6 || m == 9 || m == 11 {
        30
    } else {
        31
    }
}

/// The `YYYY-MM-DD` date `days` days after 1970-01-01.
pub fn civil_date(days: u64) -> (r: String)
    ensures
        exists|y: int, m: int, d: int| is_date_of(days as int, y, m, d) && r@ == padded(y as nat, 4) + "-"@
            + padded(m as nat, 2) + "-"@ + padded(d as nat, 2),
{
    let mut y: u64 = 1970;
    let mut rest: u64 = days;
    while rest >= year_length(y)
        invariant
            1970 <= y,
            rest <= days,
            (y - 1970) * 365 <= days - rest,
            days_to_year(y as int) + rest == days,
        decreases rest,
    {
        rest = rest - year_length(y);
        y = y + 1;
    }
    let mut m: u64 = 1;
    while m < 12 && rest >= month_length(y, m)
        invariant
            1 <= m <= 12,
            days_to_year(y as int) + days_to_month(y as int, m as int) + rest == days,
            rest < year_days(y as int) - days_to_month(y as int, m as int),
        decreases 12 - m,
    {
        rest = rest - month_length(y, m);
        m = m + 1;
    }
    proof {
        if m == 12 {
            assert(days_to_month(y as int, 12) + 31 == year_days(y as int)) by {
                reveal_with_fuel(days_to_month, 13);
            }
        }
    }
    let mut s = pad_number(y, 4);
    s.append("-");
    let ms = pad_number(m, 2);
    s.append(ms.as_str());
    s.append("-");
    let ds = pad_number(rest + 1, 2);
    s.append(ds.as_str());
    assert(is_date_of(days as int, y as int, m as int, (rest + 1) as int));
    s
}

#[verifier::external_type_specification]
#[verifier::external_body]
pub struct ExSystemTime(std::time::SystemTime);

/// `SystemTime::now`: the system clock's reading. It depends on the time, so
/// nothing is stated of it.
#[verifier::external_body]
fn clock_now() -> (t: std::time::SystemTime) {
    std::time::SystemTime::now()
}

/// `SystemTime::duration_since`, from the Unix epoch; `None` where the
/// clock reads earlier. The reading is opaque, so nothing is stated of which.
#[verifier::external_body]
fn since_epoch(t: &std::time::SystemTime) -> (r: Option<std::time::Duration>) {
    t.duration_since(std::time::UNIX_EPOCH).ok()
}

/// `Duration::as_secs`: the whole seconds of a span. The span is opaque, so
/// nothing is stated of the number.
#[verifier::external_body]
fn whole_seconds(d: &std::time::Duration) -> (r: u64) {
    d.as_secs()
}

/// Seconds since 1970-01-01 by the system clock, 0 when the clock reads
/// earlier.
fn unix_seconds() -> (r: u64) {
    let now = clock_now();
    match since_epoch(&now) {
        Some(d) => whole_seconds(&d),
        None => 0,
    }
}

/// A `YYYY-MM-DD` text naming a real day of the calendar.
pub open spec fn is_date_text(t: Seq<char>) -> bool {
    exists|days: int, y: int, m: int, d: int| is_date_of(days, y, m, d) && t == padded(y as nat, 4) + "-"@ + padded(
        m as nat,
        2,
    ) + "-"@ + padded(d as nat, 2)
}

/// Today's date by the system clock, in UTC.
pub fn today() -> (r: String)
    ensures
        is_date_text(r@),
{
    let secs = unix_seconds();
    civil_date(secs / 86400)
}

impl MemoryEntry {
    /// Parse an entry from its file; an empty date is today's.
    pub fn parse(slug: &str, content: &str) -> (r: Result<MemoryEntry, String>)
        ensures
            exists|today: Seq<char>| is_date_text(today) && entry_result_view(r) == entry_result(slug@, content@, today),
    {
        let t = today();
        let r = MemoryEntry::parse_on(slug, content, t.as_str());
        assert(is_date_text(t@) && entry_result_view(r) == entry_result(slug@, content@, t@));
        r
    }
}

/// The decimal digits of a number, as `{}` writes it.
pub fn decimal_text(n: u64) -> (r: String)
    ensures
        r@ == padded(n as nat, 1),
{
    pad_number(n, 1)
}


/// The per-user store of one project: a directory named for the project's
/// working directory under the store root.
pub struct MemoryStore {
    pub dir: String,
}

pub open spec fn store_dir(root: Seq<char>, project_cwd: Seq<char>) -> Seq<char> {
    crate::text::path_join(root, encoded(project_cwd))
}

pub open spec fn entry_file(dir: Seq<char>, slug: Seq<char>) -> Seq<char> {
    crate::text::path_join(dir, slug + ".md"@)
}

/// The entries an index lists whose file was read and parses, in index
/// order; `files` pairs each readable entry file's slug with its content.
pub open spec fn listed_entries(
    ix: Seq<IndexView>,
    files: Seq<(Seq<char>, Seq<char>)>,
    today: Seq<char>,
) -> Seq<EntryView>
    decreases ix.len(),
{
    if ix.len() == 0 {
        Seq::empty()
    } else {
        let slug = ix.last().slug;
        listed_entries(ix.drop_last(), files, today) + match crate::setup::lookup(files, slug) {
            Some(c) => match entry_result(slug, c, today) {
                Ok(e) => seq![e],
                Err(_) => Seq::empty(),
            },
            None => Seq::empty(),
        }
    }
}

pub open spec fn entry_views(v: Seq<MemoryEntry>) -> Seq<EntryView> {
    v.map_values(|e: MemoryEntry| e@)
}

impl MemoryStore {
    /// Open the store for a project under `root`. Nothing is created until
    /// the first write, so opening always succeeds.
    pub fn open(root: &str, project_cwd: &str) -> (r: Result<MemoryStore, String>)
        ensures
            r is Ok,
            r matches Ok(s) ==> s.dir@ == store_dir(root@, project_cwd@),
    {
        let e = encode_cwd(project_cwd);
        Ok(MemoryStore { dir: crate::text::join_path(root, e.as_str()) })
    }

    /// The store's directory (made on the first write).
    pub fn dir(&self) -> (r: &str)
        ensures
            r@ == self.dir@,
    {
        self.dir.as_str()
    }

    /// The file an entry lives in.
    pub fn entry_path(&self, slug: &str) -> (r: String)
        ensures
            r@ == entry_file(self.dir@, slug@),
    {
        let mut f = String::from_str(slug);
        f.append(".md");
        crate::text::join_path(self.dir.as_str(), f.as_str())
    }

    /// The store's index file.
    pub fn index_path(&self) -> (r: String)
        ensures
            r@ == crate::text::path_join(self.dir@, "MEMORY.md"@),
    {
        crate::text::join_path(self.dir.as_str(), "MEMORY.md")
    }

    /// Whether a `[[slug]]` reference resolves: an entry file with that slug
    /// exists in this store (`existing` lists the files that exist). Links
    /// never reach into another store.
    pub fn resolves(&self, existing: &Vec<String>, target_slug: &str) -> (b: bool)
        ensures
            b == crate::text::string_views(existing@).contains(entry_file(self.dir@, target_slug@)),
    {
        let p = self.entry_path(target_slug);
        crate::setup::is_listed(existing, p.as_str())
    }

    /// Every entry the index lists, read from its file; one whose file is
    /// missing or does not parse is skipped (the audit reports it). An absent
    /// index is an empty store.
    pub fn list(&self, index: Option<&str>, files: &Vec<(String, String)>, today: &str) -> (out: Vec<MemoryEntry>)
        ensures
            entry_views(out@) == match index {
                Some(t) => listed_entries(index_entries(lines(t@)), crate::setup::pair_views(files@), today@),
                None => Seq::<EntryView>::empty(),
            },
    {
        let mut out: Vec<MemoryEntry> = Vec::new();
        let t = match index {
            Some(t) => t,
            None => {
                assert(entry_views(out@) =~= Seq::<EntryView>::empty());
                return out;
            },
        };
        let ix = parse_index(t);
        let ghost iv = index_views(ix@);
        let ghost fv = crate::setup::pair_views(files@);
        let mut i: usize = 0;
        assert(entry_views(out@) =~= listed_entries(iv.subrange(0, 0), fv, today@));
        while i < ix.len()
            invariant
                i <= ix@.len(),
                iv == index_views(ix@),
                fv == crate::setup::pair_views(files@),
                entry_views(out@) == listed_entries(iv.subrange(0, i as int), fv, today@),
            decreases ix.len() - i,
        {
            let ghost sub = iv.subrange(0, i + 1);
            assert(sub.drop_last() =~= iv.subrange(0, i as int));
            assert(sub.last() == ix@[i as int]@);
            match crate::setup::lookup_exec(files, ix[i].slug.as_str()) {
                Some(c) => {
                    match MemoryEntry::parse_on(ix[i].slug.as_str(), c.as_str(), today) {
                        Ok(e) => {
                            let ghost before = entry_views(out@);
                            let ghost ev = e@;
                            out.push(e);
                            assert(entry_views(out@) =~= before.push(ev));
                        },
                        Err(_) => {},
                    }
                },
                None => {},
            }
            i = i + 1;
        }
        assert(iv.subrange(0, iv.len() as int) =~= iv);
        out
    }
}


proof fn lemma_trim_matches_absent(s: Seq<char>, c: char)
    requires
        !s.contains(c),
    ensures
        trim_matches(s, c) == s,
{
    if s.len() > 0 {
        assert(s[0] != c) by {
            if s[0] == c {
                assert(s.contains(c));
            }
        }
        assert(s.last() != c) by {
            if s[s.len() - 1] == c {
                assert(s.contains(c));
            }
        }
    }
    assert(trim_matches_start(s, c) == s);
}

proof fn lemma_trim_matches_quoted(d: Seq<char>)
    requires
        !d.contains('"'),
    ensures
        trim_matches(seq!['"'] + d + seq!['"'], '"') == d,
{
    let q = seq!['"'] + d + seq!['"'];
    assert(q.drop_first() =~= d + seq!['"']);
    if d.len() > 0 {
        assert(d[0] != '"') by {
            if d[0] == '"' {
                assert(d.contains('"'));
            }
        }
        assert((d + seq!['"'])[0] == d[0]);
        assert(trim_matches_start(d + seq!['"'], '"') == d + seq!['"']);
        assert(q[0] == '"');
        assert(trim_matches_start(q, '"') == d + seq!['"']);
        assert((d + seq!['"']).drop_last() =~= d);
        assert(d.last() != '"') by {
            if d[d.len() - 1] == '"' {
                assert(d.contains('"'));
            }
        }
        assert(trim_matches_end(d, '"') == d);
    } else {
        assert(d + seq!['"'] =~= seq!['"']);
        assert(seq!['"'].drop_first() =~= Seq::<char>::empty());
        assert(trim_matches_start(seq!['"'], '"') == trim_matches_start(Seq::<char>::empty(), '"'));
        assert(trim_matches_start(q, '"') =~= Seq::<char>::empty());
    }
}

proof fn lemma_escape_plain(s: Seq<char>)
    requires
        !s.contains('"'),
        !s.contains('\\'),
    ensures
        escape_quoted(s) == s,
    decreases s.len(),
{
    if s.len() > 0 {
        assert(!s.drop_last().contains('"')) by {
            if s.drop_last().contains('"') {
                let k = choose|k: int| 0 <= k < s.drop_last().len() && s.drop_last()[k] == '"';
                assert(s[k] == '"');
            }
        }
        assert(!s.drop_last().contains('\\')) by {
            if s.drop_last().contains('\\') {
                let k = choose|k: int| 0 <= k < s.drop_last().len() && s.drop_last()[k] == '\\';
                assert(s[k] == '\\');
            }
        }
        lemma_escape_plain(s.drop_last());
        assert(s.last() != '"' && s.last() != '\\') by {
            assert(s[s.len() - 1] == s.last());
        }
        assert(s.drop_last().push(s.last()) =~= s);
    }
}

/// A frontmatter text value that reads back as written: one line, no
/// surrounding whitespace, no double quote or backslash.
pub open spec fn plain_value(s: Seq<char>) -> bool {
    !s.contains('\n') && !s.contains('"') && !s.contains('\\') && trim(s) == s
}

/// A date that reads back as written: a valid, non-empty `YYYY-MM-DD` date
/// on one line, with no surrounding whitespace or quotes.
pub open spec fn stored_date(s: Seq<char>) -> bool {
    s.len() > 0 && !s.contains('\n') && !s.contains('"') && trim(s) == s && ymd_check(s) is Ok
}

proof fn lemma_quote_not_ws()
    ensures
        !is_ws('"'),
        is_ws(' '),
{
}

/// What the parser reads back from a written value.
proof fn lemma_value_reads_back(d: Seq<char>)
    requires
        plain_value(d),
    ensures
        trim(" "@ + yaml_scalar(d)) == yaml_scalar(d),
        trim_matches(yaml_scalar(d), '"') == d,
        !yaml_scalar(d).contains('\n'),
        yaml_scalar(d).len() > 0 ==> !is_ws(yaml_scalar(d).last()) && yaml_scalar(d).last() != '\r',
{
    reveal_strlit(" ");
    lemma_quote_not_ws();
    let y = yaml_scalar(d);
    assert forall|k: int| 0 <= k < " "@.len() implies is_ws(#[trigger] " "@[k]) by {}
    if d.len() == 0 {
        assert(y =~= Seq::<char>::empty());
        lemma_trim_after_ws(" "@, y);
        assert(trim_matches_start(y, '"') == y);
    } else if needs_quotes(d) {
        lemma_escape_plain(d);
        assert(y =~= seq!['"'] + d + seq!['"']);
        assert(y[0] == '"' && y.last() == '"');
        lemma_trim_after_ws(" "@, y);
        lemma_trim_matches_quoted(d);
        assert(!y.contains('\n')) by {
            if y.contains('\n') {
                let k = choose|k: int| 0 <= k < y.len() && y[k] == '\n';
                assert(d[k - 1] == '\n');
            }
        }
    } else {
        assert(y == d);
        lemma_trimmed_ends(d);
        lemma_trim_after_ws(" "@, y);
        lemma_trim_matches_absent(d, '"');
        assert(d.last() != '\r') by {
            assert(is_ws('\r'));
        }
    }
}


/// A frontmatter key: non-empty, one word, no colon.
pub open spec fn fm_key(k: Seq<char>) -> bool {
    k.len() > 0 && !k.contains(':') && !k.contains('\n') && trim(k) == k
}

proof fn lemma_pair_of(k: Seq<char>, v: Seq<char>)
    requires
        fm_key(k),
    ensures
        frontmatter_pair(k + ": "@ + v) == Some((k, trim(" "@ + v))),
{
    reveal_strlit(": ");
    reveal_strlit(" ");
    let line = k + ": "@ + v;
    assert(line[k.len() as int] == ':');
    assert forall|j: int| 0 <= j < k.len() implies line[j] != ':' by {
        assert(line[j] == k[j]);
        if k[j] == ':' {
            assert(k.contains(':'));
        }
    }
    lemma_char_pos_at(line, ':', k.len() as int);
    assert(line.subrange(0, k.len() as int) =~= k);
    assert(line.subrange(k.len() + 1int, line.len() as int) =~= " "@ + v);
}

proof fn lemma_lines_of_line(l: Seq<char>)
    requires
        !l.contains('\n'),
        l.len() > 0,
        l.last() != '\r',
    ensures
        lines(l + "\n"@) == seq![l],
{
    reveal_strlit("\n");
    assert(l + "\n"@ =~= l.push('\n'));
    lemma_lines_one(l);
}

proof fn lemma_lines_of_last(l: Seq<char>)
    requires
        !l.contains('\n'),
        l.len() > 0,
    ensures
        lines(l) == seq![l],
{
    lemma_split_no_sep(l, '\n');
    assert(split_on(l, '\n').drop_last() =~= Seq::<Seq<char>>::empty());
    assert(lines(l) =~= seq![l]);
}

/// Every line feed in `x` is followed by something other than `-`, and `x`
/// does not end with one.
pub open spec fn no_dash_line(x: Seq<char>) -> bool {
    x.len() > 0 && x.last() != '\n' && forall|j: int| 0 <= j < x.len() - 1 && #[trigger] x[j] == '\n' ==> x[j + 1] != '-'
}

proof fn lemma_no_dash_base(l: Seq<char>)
    requires
        l.len() > 0,
        !l.contains('\n'),
    ensures
        no_dash_line(l),
{
    assert(l.last() != '\n') by {
        if l[l.len() - 1] == '\n' {
            assert(l.contains('\n'));
        }
    }
    assert forall|j: int| 0 <= j < l.len() - 1 && #[trigger] l[j] == '\n' implies l[j + 1] != '-' by {
        assert(l.contains('\n'));
    }
}

proof fn lemma_no_dash_step(x: Seq<char>, l: Seq<char>)
    requires
        no_dash_line(x),
        l.len() > 0,
        !l.contains('\n'),
        l[0] != '-',
    ensures
        no_dash_line(x + "\n"@ + l),
{
    reveal_strlit("\n");
    let y = x + "\n"@ + l;
    assert(y.len() == x.len() + 1 + l.len());
    assert(y.last() == l.last());
    assert(l.last() != '\n') by {
        if l[l.len() - 1] == '\n' {
            assert(l.contains('\n'));
        }
    }
    assert forall|j: int| 0 <= j < y.len() - 1 && #[trigger] y[j] == '\n' implies y[j + 1] != '-' by {
        if j < x.len() - 1 {
            assert(y[j] == x[j] && y[j + 1] == x[j + 1]);
        } else if j == x.len() - 1 {
            assert(y[j] == x.last());
        } else if j == x.len() {
            assert(y[j + 1] == l[0]);
        } else {
            assert(y[j] == l[j - x.len() - 1]);
            assert(l.contains('\n'));
        }
    }
}

proof fn lemma_first_delimiter(fm: Seq<char>, t: Seq<char>)
    requires
        no_dash_line(fm),
    ensures
        find_first(fm + ("\n---\n"@ + t), "\n---\n"@) == Some(fm.len() as int),
{
    reveal_strlit("\n---\n");
    let pat = "\n---\n"@;
    let r = fm + (pat + t);
    assert(r.subrange(fm.len() as int, fm.len() + 5int) =~= pat);
    assert forall|j: int| 0 <= j < fm.len() implies !occurs_at(r, pat, j) by {
        if occurs_at(r, pat, j) {
            assert(r.subrange(j, j + 5)[0] == pat[0]);
            assert(r.subrange(j, j + 5)[1] == pat[1]);
            assert(r[j] == '\n' && r[j + 1] == '-');
            assert(r[j] == fm[j]);
            if j < fm.len() - 1 {
                assert(r[j + 1] == fm[j + 1]);
            } else {
                assert(fm[j] == fm.last());
            }
        }
    }
    lemma_find_first(r, pat, fm.len() as int);
}


proof fn lemma_get_at(ls: Seq<Seq<char>>, k: Seq<char>, v: Seq<char>, i: int)
    requires
        0 <= i < ls.len(),
        frontmatter_pair(ls[i]) == Some((k, v)),
        forall|j: int|
            i < j < ls.len() ==> match frontmatter_pair(#[trigger] ls[j]) {
                Some(p) => p.0 != k,
                None => true,
            },
    ensures
        frontmatter_get(ls, k) == Some(v),
    decreases ls.len(),
{
    if i < ls.len() - 1 {
        let j = ls.len() - 1;
        assert(ls.last() == ls[j]);
        assert forall|q: int| i < q < ls.drop_last().len() implies match frontmatter_pair(#[trigger] ls.drop_last()[q]) {
            Some(p) => p.0 != k,
            None => true,
        } by {
            assert(ls.drop_last()[q] == ls[q]);
        }
        assert(ls.drop_last()[i] == ls[i]);
        lemma_get_at(ls.drop_last(), k, v, i);
    }
}

proof fn lemma_type_name_plain(t: EntryType)
    ensures
        t.name().len() > 0,
        !t.name().contains('\n'),
        t.name()[0] != '-',
        !is_ws(t.name()[0]),
        !is_ws(t.name().last()),
        t.name().last() != '\r',
{
    reveal_strlit("feedback");
    reveal_strlit("fact");
    reveal_strlit("workaround");
    reveal_strlit("state");
    let n = t.name();
    assert(!n.contains('\n')) by {
        if n.contains('\n') {
            let k = choose|k: int| 0 <= k < n.len() && n[k] == '\n';
            assert(n[k] != '\n');
        }
    }
}

/// The entries whose file reads back as the entry itself: description and
/// supersession plain values, both dates stored dates, and a body that is
/// empty or ends with a line feed and does not start with one.
pub open spec fn round_trips(e: EntryView) -> bool {
    &&& plain_value(e.description)
    &&& plain_value(e.superseded_by)
    &&& stored_date(e.created)
    &&& stored_date(e.last_edited)
    &&& e.body.len() > 0 ==> e.body.last() == '\n' && e.body[0] != '\n'
}

/// The five frontmatter lines an entry is written with.
pub open spec fn fm_lines(e: EntryView) -> Seq<Seq<char>> {
    seq![
        "description"@ + ": "@ + yaml_scalar(e.description),
        "type"@ + ": "@ + e.entry_type.name(),
        "created"@ + ": "@ + e.created,
        "last_edited"@ + ": "@ + e.last_edited,
        "superseded_by"@ + ": "@ + yaml_scalar(e.superseded_by),
    ]
}

pub open spec fn fm_text(e: EntryView) -> Seq<char> {
    let l = fm_lines(e);
    l[0] + "\n"@ + l[1] + "\n"@ + l[2] + "\n"@ + l[3] + "\n"@ + l[4]
}

proof fn lemma_render_shape(e: EntryView)
    ensures
        render_entry(e) =~= "---\n"@ + (fm_text(e) + ("\n---\n"@ + ("\n"@ + with_final_newline(e.body)))),
{
    reveal_strlit("---\n");
    reveal_strlit("\n---\n");
    reveal_strlit("\n");
    reveal_strlit("---\n\n");
    reveal_strlit("description: ");
    reveal_strlit("type: ");
    reveal_strlit("created: ");
    reveal_strlit("last_edited: ");
    reveal_strlit("superseded_by: ");
    reveal_strlit("description");
    reveal_strlit("type");
    reveal_strlit("created");
    reveal_strlit("last_edited");
    reveal_strlit("superseded_by");
    reveal_strlit(": ");
    assert("description: "@ =~= "description"@ + ": "@);
    assert("type: "@ =~= "type"@ + ": "@);
    assert("created: "@ =~= "created"@ + ": "@);
    assert("last_edited: "@ =~= "last_edited"@ + ": "@);
    assert("superseded_by: "@ =~= "superseded_by"@ + ": "@);
    assert("---\n\n"@ =~= "---\n"@ + "\n"@);
    assert("\n---\n"@ =~= "\n"@ + "---\n"@);
}

proof fn lemma_no_nl_concat(s: Seq<char>, x: Seq<char>)
    requires
        !s.contains('\n'),
        !x.contains('\n'),
    ensures
        !(s + x).contains('\n'),
{
    if (s + x).contains('\n') {
        let k = choose|k: int| 0 <= k < (s + x).len() && (s + x)[k] == '\n';
        if k < s.len() {
            assert(s[k] == '\n');
            assert(s.contains('\n'));
        } else {
            assert(x[k - s.len()] == '\n');
            assert(x.contains('\n'));
        }
    }
}

/// A key, its colon and space: lower-case letters and underscores.
proof fn lemma_key_plain(w: Seq<char>)
    requires
        w.len() > 0,
        forall|k: int| 0 <= k < w.len() ==> ('a' <= #[trigger] w[k] <= 'z' || w[k] == '_'),
    ensures
        fm_key(w),
        !(w + ": "@).contains('\n'),
        (w + ": "@)[0] == w[0],
{
    reveal_strlit(": ");
    assert(!w.contains(':')) by {
        if w.contains(':') {
            let k = choose|k: int| 0 <= k < w.len() && w[k] == ':';
            assert('a' <= w[k] <= 'z' || w[k] == '_');
        }
    }
    assert(!w.contains('\n')) by {
        if w.contains('\n') {
            let k = choose|k: int| 0 <= k < w.len() && w[k] == '\n';
            assert('a' <= w[k] <= 'z' || w[k] == '_');
        }
    }
    assert(!": "@.contains('\n')) by {
        if ": "@.contains('\n') {
            let k = choose|k: int| 0 <= k < ": "@.len() && ": "@[k] == '\n';
        }
    }
    lemma_no_nl_concat(w, ": "@);
    lemma_trim_noop(w);
}

proof fn lemma_keys_plain()
    ensures
        fm_key("description"@) && fm_key("type"@) && fm_key("created"@) && fm_key("last_edited"@)
            && fm_key("superseded_by"@),
        !("description"@ + ": "@).contains('\n') && !("type"@ + ": "@).contains('\n') && !(
        "created"@ + ": "@).contains('\n') && !("last_edited"@ + ": "@).contains('\n') && !("superseded_by"@
            + ": "@).contains('\n'),
        ("type"@ + ": "@)[0] == 't' && ("created"@ + ": "@)[0] == 'c' && ("last_edited"@ + ": "@)[0] == 'l' && (
        "superseded_by"@ + ": "@)[0] == 's',
        ("description"@ + ": "@).len() > 0,
{
    reveal_strlit("description");
    reveal_strlit("type");
    reveal_strlit("created");
    reveal_strlit("last_edited");
    reveal_strlit("superseded_by");
    lemma_key_plain("description"@);
    lemma_key_plain("type"@);
    lemma_key_plain("created"@);
    lemma_key_plain("last_edited"@);
    lemma_key_plain("superseded_by"@);
}

proof fn lemma_fm_lines_plain(e: EntryView)
    requires
        round_trips(e),
    ensures
        forall|k: int| 0 <= k < 5 ==> (#[trigger] fm_lines(e)[k]).len() > 0 && !fm_lines(e)[k].contains('\n'),
        forall|k: int| 0 <= k < 5 ==> (#[trigger] fm_lines(e)[k]).last() != '\r',
        fm_lines(e)[1][0] == 't' && fm_lines(e)[2][0] == 'c' && fm_lines(e)[3][0] == 'l' && fm_lines(e)[4][0] == 's',
{
    reveal_strlit(": ");
    lemma_keys_plain();
    lemma_value_reads_back(e.description);
    lemma_value_reads_back(e.superseded_by);
    lemma_type_name_plain(e.entry_type);
    lemma_trimmed_ends(e.created);
    lemma_trimmed_ends(e.last_edited);
    assert(is_ws('\r'));
    let l = fm_lines(e);
    lemma_no_nl_concat("description"@ + ": "@, yaml_scalar(e.description));
    lemma_no_nl_concat("type"@ + ": "@, e.entry_type.name());
    lemma_no_nl_concat("created"@ + ": "@, e.created);
    lemma_no_nl_concat("last_edited"@ + ": "@, e.last_edited);
    lemma_no_nl_concat("superseded_by"@ + ": "@, yaml_scalar(e.superseded_by));
    assert(l[0].last() != '\r');
    assert(l[1].last() != '\r');
    assert(l[2].last() != '\r');
    assert(l[3].last() != '\r');
    assert(l[4].last() != '\r');
}

proof fn lemma_fm_no_dash(e: EntryView)
    requires
        round_trips(e),
    ensures
        no_dash_line(fm_text(e)),
{
    lemma_fm_lines_plain(e);
    let l = fm_lines(e);
    assert(l[0].len() > 0 && !l[0].contains('\n'));
    assert(l[1].len() > 0 && !l[1].contains('\n'));
    assert(l[2].len() > 0 && !l[2].contains('\n'));
    assert(l[3].len() > 0 && !l[3].contains('\n'));
    assert(l[4].len() > 0 && !l[4].contains('\n'));
    lemma_no_dash_base(l[0]);
    lemma_no_dash_step(l[0], l[1]);
    lemma_no_dash_step(l[0] + "\n"@ + l[1], l[2]);
    lemma_no_dash_step(l[0] + "\n"@ + l[1] + "\n"@ + l[2], l[3]);
    lemma_no_dash_step(l[0] + "\n"@ + l[1] + "\n"@ + l[2] + "\n"@ + l[3], l[4]);
}

proof fn lemma_fm_lines(e: EntryView)
    requires
        round_trips(e),
    ensures
        no_dash_line(fm_text(e)),
        lines(fm_text(e)) == fm_lines(e),
{
    lemma_fm_no_dash(e);
    lemma_fm_lines_plain(e);
    let l = fm_lines(e);
    assert(l[0].len() > 0 && !l[0].contains('\n') && l[0].last() != '\r');
    assert(l[1].len() > 0 && !l[1].contains('\n') && l[1].last() != '\r');
    assert(l[2].len() > 0 && !l[2].contains('\n') && l[2].last() != '\r');
    assert(l[3].len() > 0 && !l[3].contains('\n') && l[3].last() != '\r');
    assert(l[4].len() > 0 && !l[4].contains('\n'));
    lemma_lines_of_line(l[0]);
    lemma_lines_of_line(l[1]);
    lemma_lines_of_line(l[2]);
    lemma_lines_of_line(l[3]);
    lemma_lines_of_last(l[4]);
    reveal_strlit("\n");
    let a0 = l[0] + "\n"@;
    let a1 = l[1] + "\n"@;
    let a2 = l[2] + "\n"@;
    let a3 = l[3] + "\n"@;
    assert(fm_text(e) =~= a0 + a1 + a2 + a3 + l[4]);
    lemma_lines_concat(a0, a1);
    lemma_lines_concat(a0 + a1, a2);
    lemma_lines_concat(a0 + a1 + a2, a3);
    lemma_lines_concat(a0 + a1 + a2 + a3, l[4]);
    assert(lines(fm_text(e)) =~= l);
}

proof fn lemma_fm_split(e: EntryView)
    requires
        round_trips(e),
    ensures
        frontmatter_split(render_entry(e)) == Some((fm_text(e), "\n"@ + with_final_newline(e.body))),
{
    reveal_strlit("---\n");
    reveal_strlit("\n---\n");
    lemma_render_shape(e);
    lemma_fm_lines(e);
    let b = with_final_newline(e.body);
    let fm = fm_text(e);
    let content = render_entry(e);
    lemma_first_delimiter(fm, "\n"@ + b);
    let r = content.subrange(4, content.len() as int);
    assert(r =~= fm + ("\n---\n"@ + ("\n"@ + b)));
    assert(content.subrange(0, 4) =~= "---\n"@);
    assert(r.subrange(0, fm.len() as int) =~= fm);
    assert(r.subrange(fm.len() + 5int, r.len() as int) =~= "\n"@ + b);
}

proof fn lemma_fm_gets(e: EntryView)
    requires
        round_trips(e),
    ensures
        frontmatter_get(fm_lines(e), "description"@) == Some(yaml_scalar(e.description)),
        frontmatter_get(fm_lines(e), "type"@) == Some(e.entry_type.name()),
        frontmatter_get(fm_lines(e), "created"@) == Some(e.created),
        frontmatter_get(fm_lines(e), "last_edited"@) == Some(e.last_edited),
        frontmatter_get(fm_lines(e), "superseded_by"@) == Some(yaml_scalar(e.superseded_by)),
{
    reveal_strlit("description");
    reveal_strlit("type");
    reveal_strlit("created");
    reveal_strlit("last_edited");
    reveal_strlit("superseded_by");
    reveal_strlit(" ");
    lemma_keys_plain();
    lemma_value_reads_back(e.description);
    lemma_value_reads_back(e.superseded_by);
    lemma_type_name_plain(e.entry_type);
    lemma_trimmed_ends(e.created);
    lemma_trimmed_ends(e.last_edited);
    let ls = fm_lines(e);
    let yd = yaml_scalar(e.description);
    let ys = yaml_scalar(e.superseded_by);
    let name = e.entry_type.name();
    lemma_pair_of("description"@, yd);
    lemma_pair_of("type"@, name);
    lemma_pair_of("created"@, e.created);
    lemma_pair_of("last_edited"@, e.last_edited);
    lemma_pair_of("superseded_by"@, ys);
    assert forall|k: int| 0 <= k < " "@.len() implies is_ws(#[trigger] " "@[k]) by {}
    lemma_trim_after_ws(" "@, name);
    lemma_trim_after_ws(" "@, e.created);
    lemma_trim_after_ws(" "@, e.last_edited);
    assert("description"@ != "type"@ && "description"@ != "created"@ && "description"@ != "last_edited"@
        && "description"@ != "superseded_by"@) by {
        assert("description"@.len() == 11 && "type"@.len() == 4 && "created"@.len() == 7 && "last_edited"@.len() == 11
            && "superseded_by"@.len() == 13);
        assert("description"@[0] != "last_edited"@[0]);
        assert("description"@.len() != "type"@.len() && "description"@.len() != "created"@.len()
            && "description"@.len() != "superseded_by"@.len());
    }
    assert("type"@ != "created"@ && "type"@ != "last_edited"@ && "type"@ != "superseded_by"@) by {
        assert("type"@.len() != "created"@.len() && "type"@.len() != "last_edited"@.len()
            && "type"@.len() != "superseded_by"@.len());
    }
    assert("created"@ != "last_edited"@ && "created"@ != "superseded_by"@) by {
        assert("created"@.len() != "last_edited"@.len() && "created"@.len() != "superseded_by"@.len());
    }
    assert("last_edited"@ != "superseded_by"@) by {
        assert("last_edited"@.len() != "superseded_by"@.len());
    }
    lemma_get_at(ls, "description"@, yd, 0);
    lemma_get_at(ls, "type"@, name, 1);
    lemma_get_at(ls, "created"@, e.created, 2);
    lemma_get_at(ls, "last_edited"@, e.last_edited, 3);
    lemma_get_at(ls, "superseded_by"@, ys, 4);
}

/// What an entry's file reads back as: writing an entry and reading its file
/// gives the same entry back, whatever day it is read on.
pub proof fn lemma_entry_round_trip(e: EntryView, today: Seq<char>)
    requires
        round_trips(e),
    ensures
        entry_result(e.slug, render_entry(e), today) == Ok::<EntryView, Seq<char>>(e),
{
    lemma_fm_split(e);
    lemma_fm_lines(e);
    lemma_fm_gets(e);
    lemma_value_reads_back(e.description);
    lemma_value_reads_back(e.superseded_by);
    lemma_type_name_plain(e.entry_type);
    lemma_entry_type_round_trip(e.entry_type);
    lemma_trim_noop(e.entry_type.name());
    lemma_trim_matches_absent(e.created, '"');
    lemma_trim_matches_absent(e.last_edited, '"');
    assert(date_field(e.created, today) == Ok::<Seq<char>, Seq<char>>(e.created));
    assert(date_field(e.last_edited, today) == Ok::<Seq<char>, Seq<char>>(e.last_edited));
    reveal_strlit("\n");
    let b = with_final_newline(e.body);
    assert(("\n"@ + b)[0] == '\n');
    assert(("\n"@ + b).drop_first() =~= b);
    if e.body.len() > 0 {
        assert(b == e.body);
        assert(trim_matches_start(e.body, '\n') == e.body);
    } else {
        assert(b =~= seq!['\n']);
        assert(b.drop_first() =~= e.body);
        assert(trim_matches_start(e.body, '\n') == e.body);
        assert(trim_matches_start(b, '\n') == e.body);
    }
    assert(trim_matches_start("\n"@ + b, '\n') == e.body);
}


/// An index in strict slug order: each slug once, ascending.
pub open spec fn strictly_by_slug(ls: Seq<IndexView>) -> bool {
    forall|i: int, j: int| 0 <= i < j < ls.len() ==> text_lt(#[trigger] ls[i].slug, #[trigger] ls[j].slug)
}

/// The slugs an index lists.
pub open spec fn slug_set(ls: Seq<IndexView>) -> Set<Seq<char>> {
    Set::new(|w: Seq<char>| exists|k: int| 0 <= k < ls.len() && (#[trigger] ls[k]).slug == w)
}

/// What writing an entry does to the index: its line replaces the first line
/// with its slug in place; a new slug's line is added and the index sorted
/// by slug, stably.
pub open spec fn upserted(old_v: Seq<IndexView>, e: EntryView, out: Seq<IndexView>) -> bool {
    let k = slug_pos(old_v, e.slug);
    if k < old_v.len() {
        out == old_v.update(k, line_for(e))
    } else {
        &&& sorted_by_slug(out)
        &&& out.to_multiset() == old_v.push(line_for(e)).to_multiset()
        &&& forall|w: Seq<char>| #[trigger] with_slug(out, w) == with_slug(old_v.push(line_for(e)), w)
    }
}

proof fn lemma_with_slug_len(ls: Seq<IndexView>, w: Seq<char>)
    ensures
        (with_slug(ls, w).len() > 0) == (exists|k: int| 0 <= k < ls.len() && (#[trigger] ls[k]).slug == w),
    decreases ls.len(),
{
    if ls.len() > 0 {
        lemma_with_slug_len(ls.drop_last(), w);
        if exists|k: int| 0 <= k < ls.len() && (#[trigger] ls[k]).slug == w {
            let k = choose|k: int| 0 <= k < ls.len() && (#[trigger] ls[k]).slug == w;
            if k < ls.len() - 1 {
                assert(ls.drop_last()[k] == ls[k]);
            }
        }
        if exists|k: int| 0 <= k < ls.drop_last().len() && (#[trigger] ls.drop_last()[k]).slug == w {
            let k = choose|k: int| 0 <= k < ls.drop_last().len() && (#[trigger] ls.drop_last()[k]).slug == w;
            assert(ls[k] == ls.drop_last()[k]);
        }
    }
}

proof fn lemma_strict_with_slug(ls: Seq<IndexView>, w: Seq<char>)
    requires
        strictly_by_slug(ls),
    ensures
        with_slug(ls, w).len() <= 1,
    decreases ls.len(),
{
    if ls.len() > 0 {
        let d = ls.drop_last();
        assert(strictly_by_slug(d)) by {
            assert forall|i: int, j: int| 0 <= i < j < d.len() implies text_lt(#[trigger] d[i].slug, #[trigger] d[j].slug) by {
                assert(d[i] == ls[i] && d[j] == ls[j]);
            }
        }
        lemma_strict_with_slug(d, w);
        if ls.last().slug == w {
            assert forall|k: int| 0 <= k < d.len() implies (#[trigger] d[k]).slug != w by {
                assert(d[k] == ls[k]);
                assert(text_lt(ls[k].slug, ls[ls.len() - 1].slug));
                lemma_text_lt_total(ls[k].slug, ls[k].slug);
            }
            lemma_with_slug_none(d, w);
        }
    }
}

proof fn lemma_two_with_slug(ls: Seq<IndexView>, i: int, j: int)
    requires
        0 <= i < j < ls.len(),
        ls[i].slug == ls[j].slug,
    ensures
        with_slug(ls, ls[i].slug).len() >= 2,
    decreases ls.len(),
{
    let w = ls[i].slug;
    let d = ls.drop_last();
    if j == ls.len() - 1 {
        assert(d[i] == ls[i]);
        lemma_with_slug_len(d, w);
    } else {
        assert(d[i] == ls[i] && d[j] == ls[j]);
        lemma_two_with_slug(d, i, j);
    }
}

proof fn lemma_sorted_once_is_strict(ls: Seq<IndexView>)
    requires
        sorted_by_slug(ls),
        forall|w: Seq<char>| (#[trigger] with_slug(ls, w)).len() <= 1,
    ensures
        strictly_by_slug(ls),
{
    assert forall|i: int, j: int| 0 <= i < j < ls.len() implies text_lt(#[trigger] ls[i].slug, #[trigger] ls[j].slug) by {
        lemma_text_lt_total(ls[i].slug, ls[j].slug);
        if ls[i].slug == ls[j].slug {
            lemma_two_with_slug(ls, i, j);
        }
    }
}

proof fn lemma_slug_set_by_with_slug(a: Seq<IndexView>, b: Seq<IndexView>)
    requires
        forall|w: Seq<char>| #[trigger] with_slug(a, w) == with_slug(b, w),
    ensures
        slug_set(a) == slug_set(b),
{
    assert forall|w: Seq<char>| slug_set(a).contains(w) == slug_set(b).contains(w) by {
        lemma_with_slug_len(a, w);
        lemma_with_slug_len(b, w);
        assert(with_slug(a, w) == with_slug(b, w));
    }
    assert(slug_set(a) =~= slug_set(b));
}

/// Writing an entry keeps an index in strict slug order, and its slugs gain
/// exactly the entry's.
pub proof fn lemma_upsert_keeps_the_index(old_v: Seq<IndexView>, e: EntryView, out: Seq<IndexView>)
    requires
        strictly_by_slug(old_v),
        upserted(old_v, e, out),
    ensures
        strictly_by_slug(out),
        slug_set(out) == slug_set(old_v).insert(e.slug),
{
    let k = slug_pos(old_v, e.slug);
    lemma_slug_pos(old_v, e.slug);
    let nl = line_for(e);
    if k < old_v.len() {
        assert forall|i: int, j: int| 0 <= i < j < out.len() implies text_lt(#[trigger] out[i].slug, #[trigger] out[j].slug) by {
            assert(out[i].slug == old_v[i].slug);
            assert(out[j].slug == old_v[j].slug);
        }
        assert forall|w: Seq<char>| slug_set(out).contains(w) == slug_set(old_v).insert(e.slug).contains(w) by {
            if slug_set(out).contains(w) {
                let q = choose|q: int| 0 <= q < out.len() && (#[trigger] out[q]).slug == w;
                assert(out[q].slug == old_v[q].slug);
            }
            if slug_set(old_v).contains(w) {
                let q = choose|q: int| 0 <= q < old_v.len() && (#[trigger] old_v[q]).slug == w;
                assert(out[q].slug == old_v[q].slug);
            }
            if w == e.slug {
                assert(out[k].slug == w);
            }
        }
        assert(slug_set(out) =~= slug_set(old_v).insert(e.slug));
    } else {
        let pushed = old_v.push(nl);
        assert forall|w: Seq<char>| (#[trigger] with_slug(out, w)).len() <= 1 by {
            assert(with_slug(out, w) == with_slug(pushed, w));
            assert(pushed.drop_last() =~= old_v);
            if w == e.slug {
                assert forall|q: int| 0 <= q < old_v.len() implies (#[trigger] old_v[q]).slug != w by {}
                lemma_with_slug_none(old_v, w);
            } else {
                lemma_strict_with_slug(old_v, w);
            }
        }
        lemma_sorted_once_is_strict(out);
        lemma_slug_set_by_with_slug(out, pushed);
        assert forall|w: Seq<char>| slug_set(pushed).contains(w) == slug_set(old_v).insert(e.slug).contains(w) by {
            if slug_set(pushed).contains(w) {
                let q = choose|q: int| 0 <= q < pushed.len() && (#[trigger] pushed[q]).slug == w;
                if q < old_v.len() {
                    assert(pushed[q] == old_v[q]);
                }
            }
            if slug_set(old_v).contains(w) {
                let q = choose|q: int| 0 <= q < old_v.len() && (#[trigger] old_v[q]).slug == w;
                assert(pushed[q] == old_v[q]);
            }
            if w == e.slug {
                assert(pushed[old_v.len() as int].slug == w);
            }
        }
        assert(slug_set(pushed) =~= slug_set(old_v).insert(e.slug));
    }
}

/// Deleting an entry keeps an index in strict slug order, and its slugs lose
/// exactly the entry's.
pub proof fn lemma_remove_keeps_the_index(ls: Seq<IndexView>, slug: Seq<char>)
    requires
        strictly_by_slug(ls),
    ensures
        strictly_by_slug(without_slug(ls, slug)),
        slug_set(without_slug(ls, slug)) == slug_set(ls).remove(slug),
    decreases ls.len(),
{
    if ls.len() == 0 {
        assert(slug_set(ls) =~= Set::<Seq<char>>::empty());
        assert(slug_set(without_slug(ls, slug)) =~= slug_set(ls).remove(slug));
    } else {
        let d = ls.drop_last();
        assert(strictly_by_slug(d)) by {
            assert forall|i: int, j: int| 0 <= i < j < d.len() implies text_lt(#[trigger] d[i].slug, #[trigger] d[j].slug) by {
                assert(d[i] == ls[i] && d[j] == ls[j]);
            }
        }
        lemma_remove_keeps_the_index(d, slug);
        let wd = without_slug(d, slug);
        let last = ls.last();
        assert(slug_set(ls) =~= slug_set(d).insert(last.slug)) by {
            assert forall|w: Seq<char>| slug_set(ls).contains(w) == slug_set(d).insert(last.slug).contains(w) by {
                if slug_set(ls).contains(w) {
                    let q = choose|q: int| 0 <= q < ls.len() && (#[trigger] ls[q]).slug == w;
                    if q < d.len() {
                        assert(d[q] == ls[q]);
                    }
                }
                if slug_set(d).contains(w) {
                    let q = choose|q: int| 0 <= q < d.len() && (#[trigger] d[q]).slug == w;
                    assert(d[q] == ls[q]);
                }
                if w == last.slug {
                    assert(ls[ls.len() - 1].slug == w);
                }
            }
        }
        if last.slug == slug {
            assert(slug_set(ls).remove(slug) =~= slug_set(d).remove(slug));
        } else {
            let r = wd.push(last);
            assert(r == without_slug(ls, slug));
            assert forall|i: int, j: int| 0 <= i < j < r.len() implies text_lt(#[trigger] r[i].slug, #[trigger] r[j].slug) by {
                if j < wd.len() {
                    assert(r[i] == wd[i] && r[j] == wd[j]);
                } else {
                    assert(r[i] == wd[i]);
                    assert(slug_set(wd).contains(wd[i].slug));
                    let q = choose|q: int| 0 <= q < d.len() && (#[trigger] d[q]).slug == wd[i].slug;
                    assert(d[q] == ls[q]);
                    assert(text_lt(ls[q].slug, ls[ls.len() - 1].slug));
                }
            }
            assert forall|w: Seq<char>| slug_set(r).contains(w) == slug_set(wd).insert(last.slug).contains(w) by {
                if slug_set(r).contains(w) {
                    let q = choose|q: int| 0 <= q < r.len() && (#[trigger] r[q]).slug == w;
                    if q < wd.len() {
                        assert(r[q] == wd[q]);
                    }
                }
                if slug_set(wd).contains(w) {
                    let q = choose|q: int| 0 <= q < wd.len() && (#[trigger] wd[q]).slug == w;
                    assert(r[q] == wd[q]);
                }
                if w == last.slug {
                    assert(r[wd.len() as int].slug == w);
                }
            }
            assert(slug_set(r) =~= slug_set(wd).insert(last.slug));
            assert(slug_set(ls).remove(slug) =~= slug_set(d).remove(slug).insert(last.slug));
        }
    }
}


proof fn lemma_listed_holds(ix: Seq<IndexView>, files: Seq<(Seq<char>, Seq<char>)>, today: Seq<char>, k: int, e: EntryView)
    requires
        0 <= k < ix.len(),
        ix[k].slug == e.slug,
        crate::setup::lookup(files, e.slug) matches Some(c) && entry_result(e.slug, c, today) == Ok::<EntryView, Seq<char>>(e),
    ensures
        listed_entries(ix, files, today).contains(e),
    decreases ix.len(),
{
    let d = ix.drop_last();
    let prev = listed_entries(d, files, today);
    if k == ix.len() - 1 {
        assert(listed_entries(ix, files, today) == prev.push(e));
        assert(listed_entries(ix, files, today)[prev.len() as int] == e);
    } else {
        assert(d[k] == ix[k]);
        lemma_listed_holds(d, files, today, k, e);
        let j = choose|j: int| 0 <= j < prev.len() && prev[j] == e;
        let tail = match crate::setup::lookup(files, ix.last().slug) {
            Some(c) => match entry_result(ix.last().slug, c, today) {
                Ok(x) => seq![x],
                Err(_) => Seq::<EntryView>::empty(),
            },
            None => Seq::<EntryView>::empty(),
        };
        assert(listed_entries(ix, files, today) == prev + tail);
        assert((prev + tail)[j] == e);
    }
}

proof fn lemma_listed_slugs(ix: Seq<IndexView>, files: Seq<(Seq<char>, Seq<char>)>, today: Seq<char>, slug: Seq<char>)
    requires
        !slug_set(ix).contains(slug),
    ensures
        forall|k: int| 0 <= k < listed_entries(ix, files, today).len() ==> (#[trigger] listed_entries(ix, files, today)[k]).slug
            != slug,
    decreases ix.len(),
{
    if ix.len() > 0 {
        let d = ix.drop_last();
        assert(!slug_set(d).contains(slug)) by {
            if slug_set(d).contains(slug) {
                let q = choose|q: int| 0 <= q < d.len() && (#[trigger] d[q]).slug == slug;
                assert(ix[q] == d[q]);
            }
        }
        lemma_listed_slugs(d, files, today, slug);
        assert(ix[ix.len() - 1].slug != slug);
        let prev = listed_entries(d, files, today);
        let tail = match crate::setup::lookup(files, ix.last().slug) {
            Some(c) => match entry_result(ix.last().slug, c, today) {
                Ok(x) => seq![x],
                Err(_) => Seq::<EntryView>::empty(),
            },
            None => Seq::<EntryView>::empty(),
        };
        assert(listed_entries(ix, files, today) == prev + tail);
        assert forall|k: int| 0 <= k < (prev + tail).len() implies (#[trigger] (prev + tail)[k]).slug != slug by {
            if k < prev.len() {
                assert((prev + tail)[k] == prev[k]);
            } else {
                assert((prev + tail)[k] == tail[k - prev.len()]);
            }
        }
    }
}

/// The store round trip: once an entry is written (its file holds the
/// rendered entry and the rendered index lists its slug), listing the store
/// gives the entry back; once its slug is gone from the index, listing gives
/// no entry with that slug. Together with `lemma_upsert_keeps_the_index` and
/// `lemma_remove_keeps_the_index`, a write then a list returns the entry and
/// a delete then a list does not.
pub proof fn lemma_store_round_trip(
    ix: Seq<IndexView>,
    files: Seq<(Seq<char>, Seq<char>)>,
    today: Seq<char>,
    e: EntryView,
    gone: Seq<char>,
)
    requires
        forall|i: int| 0 <= i < ix.len() ==> index_line_ok(#[trigger] ix[i]),
    ensures
        round_trips(e) && slug_set(ix).contains(e.slug) && crate::setup::lookup(files, e.slug) == Some(render_entry(e))
            ==> listed_entries(index_entries(lines(index_text(ix))), files, today).contains(e),
        !slug_set(ix).contains(gone) ==> forall|k: int|
            0 <= k < listed_entries(index_entries(lines(index_text(ix))), files, today).len() ==> (#[trigger] listed_entries(
                index_entries(lines(index_text(ix))),
                files,
                today,
            )[k]).slug != gone,
{
    lemma_index_round_trip(ix);
    if round_trips(e) && slug_set(ix).contains(e.slug) && crate::setup::lookup(files, e.slug) == Some(render_entry(e)) {
        lemma_entry_round_trip(e, today);
        let k = choose|k: int| 0 <= k < ix.len() && (#[trigger] ix[k]).slug == e.slug;
        lemma_listed_holds(ix, files, today, k, e);
    }
    if !slug_set(ix).contains(gone) {
        lemma_listed_slugs(ix, files, today, gone);
    }
}


proof fn lemma_markers_shed(n: nat, x: Seq<char>)
    requires
        x.len() == 0 || x[0] != '#',
    ensures
        trim_matches_start(Seq::new(n, |k: int| '#') + x, '#') == x,
    decreases n,
{
    let s = Seq::new(n, |k: int| '#') + x;
    if n > 0 {
        assert(s[0] == '#');
        assert(s.drop_first() =~= Seq::new((n - 1) as nat, |k: int| '#') + x);
        lemma_markers_shed((n - 1) as nat, x);
    } else {
        assert(s =~= x);
    }
}

/// A body whose first line is a markdown heading, any number of `#`
/// markers before its text, titles the entry with that text trimmed: the
/// markers never reach the index line.
pub proof fn lemma_heading_titles_the_entry(e: EntryView, n: nat, x: Seq<char>)
    requires
        lines(e.body).len() > 0,
        lines(e.body)[0] == Seq::new(n, |k: int| '#') + x,
        x.len() > 0,
        x[0] != '#',
        trim(x).len() > 0,
    ensures
        line_for(e).title == trim(x),
        trim(x)[0] != '#' ==> line_for(e).title[0] != '#',
{
    lemma_markers_shed(n, x);
}


/// A first line of nothing but `#` markers (or nothing at all) gives no
/// title: the heading on the next line does, its markers shed; and a body
/// with no lines leaves the slug as the title.
pub proof fn lemma_bare_marker_line_is_passed_over(e: EntryView, n: nat, p: nat, x: Seq<char>)
    requires
        lines(e.body).len() > 1,
        lines(e.body)[0] == Seq::new(n, |k: int| '#'),
        lines(e.body)[1] == Seq::new(p, |k: int| '#') + x,
        x.len() > 0,
        x[0] != '#',
        trim(x).len() > 0,
    ensures
        line_for(e).title == trim(x),
{
    let ls = lines(e.body);
    lemma_markers_shed(n, Seq::empty());
    assert(Seq::new(n, |k: int| '#') + Seq::<char>::empty() =~= Seq::new(n, |k: int| '#'));
    assert(trim(Seq::<char>::empty()) =~= Seq::<char>::empty()) by {
        reveal_with_fuel(trim_start, 1);
        reveal_with_fuel(trim_end, 1);
    }
    lemma_markers_shed(p, x);
    assert(ls.drop_first()[0] == ls[1]);
    assert(trim(trim_matches_start(ls[0], '#')).len() == 0);
    assert(title_from(ls.drop_first(), e.slug) == trim(x));
    assert(title_from(ls, e.slug) == title_from(ls.drop_first(), e.slug));
}

/// A body without lines is titled by the slug.
pub proof fn lemma_empty_body_titled_by_slug(e: EntryView)
    requires
        lines(e.body).len() == 0,
    ensures
        line_for(e).title == e.slug,
{
}

} // verus!
