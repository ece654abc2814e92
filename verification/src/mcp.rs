//! The decisions of the MCP server: what a line of JSON-RPC holds for it,
//! how a tool call's arguments become a verb command line, how a method and
//! a tool are routed, when the server asks the client for the project name
//! and which message answers it, and the texts the memory tools answer with.
//! Moving lines over stdio, and running the verb, are the program's part.

use vstd::prelude::*;
use vstd::string::*;

use crate::dream::{finding_lines, finding_views, Confidence, Finding, FindingView};
use crate::memory::{decimal_text, padded, EntryType, MemoryEntry};
use crate::recipe::opt_text;
use crate::text::{chars_of, eq_chars, joined, string_of, string_views, trim, trim_exec};

verus! {

/// The exit status a verb uses to say it needs a project name.
pub const EXIT_NAME_REQUIRED: i32 = 3;

/// The string-valued arguments of an `init` or `adopt` call; a key whose value
/// is absent or not a string is `None`.
#[derive(Debug, Clone)]
pub struct ToolArgs {
    pub name: Option<String>,
    pub purpose: Option<String>,
    pub at: Option<String>,
    pub source: Option<String>,
}

pub open spec fn nonblank(s: Seq<char>) -> bool {
    trim(s).len() > 0
}

/// The argv for a verb run from a tool call: the verb, `--name` (an override
/// wins, trimmed, when not blank), `--purpose` and `--at` when not blank,
/// and for `adopt` the source after an end-of-options `--`, so a source
/// beginning with `-` cannot be read as a flag.
pub open spec fn argv_spec(verb: Seq<char>, args: ToolArgs, name_override: Option<Seq<char>>) -> Seq<Seq<char>> {
    let name = match name_override {
        Some(n) => Some(n),
        None => opt_text(args.name),
    };
    let name_part = match name {
        Some(n) => if trim(n).len() > 0 {
            seq!["--name"@, trim(n)]
        } else {
            Seq::empty()
        },
        None => Seq::empty(),
    };
    let purpose_part = match opt_text(args.purpose) {
        Some(v) => if nonblank(v) {
            seq!["--purpose"@, v]
        } else {
            Seq::empty()
        },
        None => Seq::empty(),
    };
    let at_part = match opt_text(args.at) {
        Some(v) => if nonblank(v) {
            seq!["--at"@, v]
        } else {
            Seq::empty()
        },
        None => Seq::empty(),
    };
    let source_part = if verb == "adopt"@ {
        match opt_text(args.source) {
            Some(v) => if nonblank(v) {
                seq!["--"@, v]
            } else {
                Seq::empty()
            },
            None => Seq::empty(),
        }
    } else {
        Seq::empty()
    };
    seq![verb] + name_part + purpose_part + at_part + source_part
}

fn push_text(out: &mut Vec<String>, s: String)
    ensures
        string_views(final(out)@) == string_views(old(out)@).push(s@),
{
    let ghost b = string_views(out@);
    let ghost sv = s@;
    out.push(s);
    assert(string_views(out@) =~= b.push(sv));
}

fn push_flag(out: &mut Vec<String>, flag: &str, v: &Option<String>)
    ensures
        string_views(final(out)@) == string_views(old(out)@) + match opt_text(*v) {
            Some(x) => if nonblank(x) {
                seq![flag@, x]
            } else {
                Seq::empty()
            },
            None => Seq::empty(),
        },
{
    let ghost b = string_views(out@);
    match v {
        Some(x) => {
            if trim_exec(&chars_of(x.as_str())).len() > 0 {
                push_text(out, String::from_str(flag));
                push_text(out, x.clone());
                assert(string_views(out@) =~= b + seq![flag@, x@]);
            } else {
                assert(string_views(out@) =~= b + Seq::<Seq<char>>::empty());
            }
        },
        None => {
            assert(string_views(out@) =~= b + Seq::<Seq<char>>::empty());
        },
    }
}

/// The argv for a verb subprocess from the tool-call arguments.
pub fn verb_argv(verb: &str, args: &ToolArgs, name_override: Option<&str>) -> (argv: Vec<String>)
    ensures
        string_views(argv@) == argv_spec(
            verb@,
            *args,
            match name_override {
                Some(n) => Some(n@),
                None => None,
            },
        ),
{
    let mut argv: Vec<String> = Vec::new();
    push_text(&mut argv, String::from_str(verb));
    let ghost a0 = string_views(argv@);
    let name: Option<String> = match name_override {
        Some(n) => Some(String::from_str(n)),
        None => match &args.name {
            Some(n) => Some(n.clone()),
            None => None,
        },
    };
    match &name {
        Some(n) => {
            let t = trim_exec(&chars_of(n.as_str()));
            if t.len() > 0 {
                push_text(&mut argv, String::from_str("--name"));
                push_text(&mut argv, string_of(&t));
                assert(string_views(argv@) =~= a0 + seq!["--name"@, t@]);
            } else {
                assert(string_views(argv@) =~= a0 + Seq::<Seq<char>>::empty());
            }
        },
        None => {
            assert(string_views(argv@) =~= a0 + Seq::<Seq<char>>::empty());
        },
    }
    push_flag(&mut argv, "--purpose", &args.purpose);
    push_flag(&mut argv, "--at", &args.at);
    let ghost a3 = string_views(argv@);
    proof { reveal_strlit("adopt"); }
    if eq_chars(&chars_of(verb), &chars_of("adopt")) {
        push_flag(&mut argv, "--", &args.source);
    } else {
        assert(string_views(argv@) =~= a3 + Seq::<Seq<char>>::empty());
    }
    argv
}

/// The name an elicitation answer carries: only an accept with a name that is
/// not blank, trimmed. A decline, a cancel, or an accept without a name is no
/// name.
pub open spec fn elicited_name(action: Option<Seq<char>>, name: Option<Seq<char>>) -> Option<Seq<char>> {
    match (action, name) {
        (Some(a), Some(n)) => if a == "accept"@ && trim(n).len() > 0 {
            Some(trim(n))
        } else {
            None
        },
        _ => None,
    }
}

fn accepted_name(action: Option<&str>, name: Option<&str>) -> (r: Option<String>)
    ensures
        opt_text(r) == elicited_name(
            match action {
                Some(a) => Some(a@),
                None => None,
            },
            match name {
                Some(n) => Some(n@),
                None => None,
            },
        ),
{
    match (action, name) {
        (Some(a), Some(n)) => {
            proof { reveal_strlit("accept"); }
            if !eq_chars(&chars_of(a), &chars_of("accept")) {
                return None;
            }
            let t = trim_exec(&chars_of(n));
            if t.len() > 0 {
                Some(string_of(&t))
            } else {
                None
            }
        },
        _ => None,
    }
}

/// Whether a call named a project itself.
pub fn name_given(args: &ToolArgs) -> (b: bool)
    ensures
        b == match opt_text(args.name) {
            Some(n) => nonblank(n),
            None => false,
        },
{
    match &args.name {
        Some(n) => trim_exec(&chars_of(n.as_str())).len() > 0,
        None => false,
    }
}

/// Whether the server asks the client for the name: the verb said it needs
/// one, the client can be asked, and the call did not name a project.
pub fn should_elicit(code: i32, client_elicits: bool, named: bool) -> (b: bool)
    ensures
        b == (code == EXIT_NAME_REQUIRED && client_elicits && !named),
{
    code == EXIT_NAME_REQUIRED && client_elicits && !named
}

/// How the server answers a JSON-RPC method.
#[derive(Debug, Clone, Copy, PartialEq, Eq, Structural)]
pub enum Method {
    Initialize,
    /// A notification, or a message with no method: no reply.
    Silent,
    Ping,
    ToolsList,
    ToolsCall,
    NotFound,
}

pub open spec fn method_of(m: Seq<char>) -> Method {
    if m == "initialize"@ {
        Method::Initialize
    } else if m == "notifications/initialized"@ || m == "notifications/cancelled"@ || m.len() == 0 {
        Method::Silent
    } else if m == "ping"@ {
        Method::Ping
    } else if m == "tools/list"@ {
        Method::ToolsList
    } else if m == "tools/call"@ {
        Method::ToolsCall
    } else {
        Method::NotFound
    }
}

fn is_text(a: &str, b: &str) -> (r: bool)
    ensures
        r == (a@ == b@),
{
    eq_chars(&chars_of(a), &chars_of(b))
}

pub fn route_method(m: &str) -> (r: Method)
    ensures
        r == method_of(m@),
{
    if is_text(m, "initialize") {
        Method::Initialize
    } else if is_text(m, "notifications/initialized") || is_text(m, "notifications/cancelled") || m.unicode_len() == 0 {
        Method::Silent
    } else if is_text(m, "ping") {
        Method::Ping
    } else if is_text(m, "tools/list") {
        Method::ToolsList
    } else if is_text(m, "tools/call") {
        Method::ToolsCall
    } else {
        Method::NotFound
    }
}

/// The error message for a method the server does not know.
pub fn method_not_found(m: &str) -> (r: String)
    ensures
        r@ == "method not found: "@ + m@,
{
    let mut s = String::from_str("method not found: ");
    s.append(m);
    s
}

/// Where a tool call goes: a memory tool is answered by the store directly,
/// `init` and `adopt` run as a verb, anything else is unknown.
#[derive(Debug, Clone, Copy, PartialEq, Eq, Structural)]
pub enum ToolRoute {
    Memory,
    Verb,
    Unknown,
}

pub open spec fn tool_route(v: Seq<char>) -> ToolRoute {
    if v == "memory_list"@ || v == "memory_read"@ || v == "memory_write"@ || v == "memory_consolidate"@ {
        ToolRoute::Memory
    } else if v == "init"@ || v == "adopt"@ {
        ToolRoute::Verb
    } else {
        ToolRoute::Unknown
    }
}

pub fn route_tool(v: &str) -> (r: ToolRoute)
    ensures
        r == tool_route(v@),
{
    if is_text(v, "memory_list") || is_text(v, "memory_read") || is_text(v, "memory_write") || is_text(
        v,
        "memory_consolidate",
    ) {
        ToolRoute::Memory
    } else if is_text(v, "init") || is_text(v, "adopt") {
        ToolRoute::Verb
    } else {
        ToolRoute::Unknown
    }
}

/// The text a tool call answers with, and whether it is an error.
pub struct ToolReply {
    pub text: String,
    pub is_error: bool,
}

/// The reply to a tool name nobody serves.
pub fn unknown_tool(v: &str) -> (r: ToolReply)
    ensures
        r.text@ == "unknown tool: "@ + v@,
        r.is_error,
{
    let mut s = String::from_str("unknown tool: ");
    s.append(v);
    ToolReply { text: s, is_error: true }
}

/// A verb's reply: its output, an error unless it exited zero.
pub fn verb_reply(text: String, code: i32) -> (r: ToolReply)
    ensures
        r.text@ == text@,
        r.is_error == (code != 0),
{
    ToolReply { text, is_error: code != 0 }
}


/// The `memory_list` line for one entry.
pub open spec fn list_line(e: crate::memory::EntryView) -> Seq<char> {
    "- ["@ + e.slug + "]("@ + e.slug + ".md): "@ + e.description
}

/// The `memory_list` answer: one line per entry, or a note that there is
/// none.
pub fn list_reply(entries: &Vec<MemoryEntry>) -> (r: ToolReply)
    ensures
        !r.is_error,
        entries@.len() == 0 ==> r.text@ == "(no memory entries)"@,
        entries@.len() > 0 ==> r.text@ == joined(
            crate::memory::entry_views(entries@).map_values(|e: crate::memory::EntryView| list_line(e)),
            "\n"@,
        ),
{
    if entries.len() == 0 {
        return ToolReply { text: String::from_str("(no memory entries)"), is_error: false };
    }
    let ghost ev = crate::memory::entry_views(entries@);
    let mut ls: Vec<String> = Vec::new();
    let mut i: usize = 0;
    while i < entries.len()
        invariant
            i <= entries@.len(),
            ev == crate::memory::entry_views(entries@),
            string_views(ls@) == ev.subrange(0, i as int).map_values(|e: crate::memory::EntryView| list_line(e)),
        decreases entries.len() - i,
    {
        let e = &entries[i];
        let mut l = String::from_str("- [");
        l.append(e.slug.as_str());
        l.append("](");
        l.append(e.slug.as_str());
        l.append(".md): ");
        l.append(e.description.as_str());
        let ghost before = string_views(ls@);
        let ghost lv = l@;
        ls.push(l);
        assert(ev[i as int] == e@);
        assert(lv == list_line(ev[i as int]));
        assert(string_views(ls@) =~= before.push(lv));
        assert(string_views(ls@) =~= ev.subrange(0, i + 1).map_values(|e: crate::memory::EntryView| list_line(e)));
        i = i + 1;
    }
    assert(ev.subrange(0, ev.len() as int) =~= ev);
    ToolReply { text: crate::text::join_texts(&ls, "\n"), is_error: false }
}

/// The slug argument of a memory call, trimmed; absent reads as empty.
pub fn slug_arg(slug: Option<&str>) -> (r: String)
    ensures
        r@ == match slug {
            Some(s) => trim(s@),
            None => Seq::empty(),
        },
{
    match slug {
        Some(s) => string_of(&trim_exec(&chars_of(s))),
        None => String::new(),
    }
}

/// The refusal of a memory call that names no entry.
pub fn slug_required(tool: &str) -> (r: ToolReply)
    ensures
        r.is_error,
        r.text@ == tool@ + " requires a 'slug'"@,
{
    let mut s = String::from_str(tool);
    s.append(" requires a 'slug'");
    ToolReply { text: s, is_error: true }
}

fn said(verb: &str, slug: &str, why: Option<&str>) -> (r: String)
    ensures
        r@ == verb@ + " "@ + slug@ + match why {
            Some(w) => ": "@ + w@,
            None => Seq::empty(),
        },
{
    let mut s = String::from_str(verb);
    s.append(" ");
    s.append(slug);
    match why {
        Some(w) => {
            s.append(": ");
            s.append(w);
        },
        None => {},
    }
    s
}

/// The `memory_read` answer: the entry as its file renders it, or why it
/// could not be read.
pub fn read_reply(slug: &str, res: &Result<MemoryEntry, String>) -> (out: ToolReply)
    ensures
        match res {
            Ok(e) => !out.is_error && out.text@ == crate::memory::render_entry(e@),
            Err(m) => out.is_error && out.text@ == "read "@ + slug@ + ": "@ + m@,
        },
{
    match res {
        Ok(e) => ToolReply { text: e.render(), is_error: false },
        Err(m) => {
            proof {
                reveal_strlit("read");
                reveal_strlit(" ");
                reveal_strlit("read ");
                assert("read "@ =~= "read"@ + " "@);
            }
            ToolReply { text: said("read", slug, Some(m.as_str())), is_error: true }
        },
    }
}

/// Whether a `memory_write` call deletes: its `op` is `delete` (the default
/// is `write`).
pub fn is_delete(op: Option<&str>) -> (b: bool)
    ensures
        b == (op matches Some(o) && o@ == "delete"@),
{
    match op {
        Some(o) => is_text(o, "delete"),
        None => false,
    }
}

/// The answer to a delete or a write, from what the store reported.
pub fn done_reply(deleting: bool, slug: &str, r: &Result<(), String>) -> (out: ToolReply)
    ensures
        out.is_error == (r is Err),
        out.text@ == match r {
            Ok(_) => (if deleting { "deleted"@ } else { "wrote"@ }) + " "@ + slug@,
            Err(m) => (if deleting { "delete"@ } else { "write"@ }) + " "@ + slug@ + ": "@ + m@,
        },
{
    let verb = if deleting {
        match r {
            Ok(_) => "deleted",
            Err(_) => "delete",
        }
    } else {
        match r {
            Ok(_) => "wrote",
            Err(_) => "write",
        }
    };
    match r {
        Ok(_) => ToolReply { text: said(verb, slug, None), is_error: false },
        Err(m) => ToolReply { text: said(verb, slug, Some(m.as_str())), is_error: true },
    }
}

/// The entry a `memory_write` stores: the given fields, the type as named
/// (an unknown or absent type is a fact), created when the entry was first
/// written (today for a new one), and last edited today.
pub fn entry_for_write(
    slug: &str,
    description: Option<&str>,
    body: Option<&str>,
    type_arg: Option<&str>,
    superseded_by: Option<&str>,
    existing_created: Option<String>,
    today: &str,
) -> (e: MemoryEntry)
    ensures
        e.slug@ == slug@,
        e.description@ == match description {
            Some(d) => d@,
            None => Seq::empty(),
        },
        e.body@ == match body {
            Some(b) => b@,
            None => Seq::empty(),
        },
        e.entry_type == match type_arg {
            Some(t) => match EntryType::from_name(trim(t@)) {
                Some(k) => k,
                None => EntryType::Fact,
            },
            None => EntryType::Fact,
        },
        e.superseded_by@ == match superseded_by {
            Some(s) => s@,
            None => Seq::empty(),
        },
        e.created@ == match existing_created {
            Some(c) => c@,
            None => today@,
        },
        e.last_edited@ == today@,
{
    let text = |o: Option<&str>| -> (r: String)
        ensures
            r@ == match o {
                Some(x) => x@,
                None => Seq::<char>::empty(),
            },
        {
            match o {
                Some(x) => String::from_str(x),
                None => String::new(),
            }
        };
    let entry_type = match type_arg {
        Some(t) => match EntryType::parse(t) {
            Ok(k) => k,
            Err(_) => EntryType::Fact,
        },
        None => EntryType::Fact,
    };
    let created = match existing_created {
        Some(c) => c,
        None => String::from_str(today),
    };
    MemoryEntry {
        slug: String::from_str(slug),
        description: text(description),
        body: text(body),
        entry_type,
        created,
        last_edited: String::from_str(today),
        superseded_by: text(superseded_by),
    }
}

/// The consolidation line for one finding.
pub open spec fn consolidate_line(f: FindingView) -> Seq<char> {
    f.entry_slug + " ("@ + f.store.name() + ") ["@ + f.kind + "] "@ + f.confidence.name() + " route="@
        + f.route.name() + ": "@ + f.explanation + "\n  \u{2192} "@ + f.suggestion
}

/// The number of confirmed findings.
pub open spec fn confirmed_count(fs: Seq<FindingView>) -> nat
    decreases fs.len(),
{
    if fs.len() == 0 {
        0
    } else {
        confirmed_count(fs.drop_last()) + if fs.last().confidence == Confidence::Confirmed { 1nat } else { 0nat }
    }
}

pub proof fn lemma_confirmed_count(fs: Seq<FindingView>)
    ensures
        confirmed_count(fs) <= fs.len(),
    decreases fs.len(),
{
    if fs.len() > 0 {
        lemma_confirmed_count(fs.drop_last());
    }
}

/// The `memory_consolidate` answer: the audit's findings, counted by
/// confidence, and what the audit did and did not cover. It never errs.
pub open spec fn consolidate_text(fs: Seq<FindingView>, coverage: Seq<Seq<char>>) -> Seq<char> {
    let cov = joined(coverage, "\n"@);
    if fs.len() == 0 {
        "clean\n"@ + cov
    } else {
        let c = confirmed_count(fs);
        padded(c, 1) + " confirmed finding(s), "@ + padded((fs.len() - c) as nat, 1) + " review prompt(s):\n"@
            + joined(fs.map_values(|f: FindingView| consolidate_line(f)), "\n"@) + "\n"@ + cov
    }
}

pub fn consolidate_reply(findings: &Vec<Finding>, coverage: &Vec<String>) -> (r: ToolReply)
    ensures
        !r.is_error,
        r.text@ == consolidate_text(finding_views(findings@), string_views(coverage@)),
{
    let cov = crate::text::join_texts(coverage, "\n");
    if findings.len() == 0 {
        let mut s = String::from_str("clean\n");
        s.append(cov.as_str());
        return ToolReply { text: s, is_error: false };
    }
    let ghost fv = finding_views(findings@);
    let mut ls: Vec<String> = Vec::new();
    let mut confirmed: usize = 0;
    let mut i: usize = 0;
    while i < findings.len()
        invariant
            i <= findings@.len(),
            fv == finding_views(findings@),
            confirmed as nat == confirmed_count(fv.subrange(0, i as int)),
            confirmed <= i,
            string_views(ls@) == fv.subrange(0, i as int).map_values(|f: FindingView| consolidate_line(f)),
        decreases findings.len() - i,
    {
        let f = &findings[i];
        let ghost sub = fv.subrange(0, i + 1);
        assert(sub.drop_last() =~= fv.subrange(0, i as int));
        assert(sub.last() == f@);
        let mut l = f.entry_slug.clone();
        l.append(" (");
        l.append(f.store.as_str());
        l.append(") [");
        l.append(f.kind.as_str());
        l.append("] ");
        l.append(f.confidence.as_str());
        l.append(" route=");
        l.append(f.route.as_str());
        l.append(": ");
        l.append(f.explanation.as_str());
        l.append("\n  \u{2192} ");
        l.append(f.suggestion.as_str());
        let ghost before = string_views(ls@);
        let ghost lv = l@;
        ls.push(l);
        assert(lv == consolidate_line(f@));
        assert(string_views(ls@) =~= before.push(lv));
        assert(string_views(ls@) =~= sub.map_values(|f: FindingView| consolidate_line(f)));
        if f.confidence == Confidence::Confirmed {
            confirmed = confirmed + 1;
        }
        i = i + 1;
    }
    assert(fv.subrange(0, fv.len() as int) =~= fv);
    let mut s = decimal_text(confirmed as u64);
    s.append(" confirmed finding(s), ");
    let rest = decimal_text((findings.len() - confirmed) as u64);
    s.append(rest.as_str());
    s.append(" review prompt(s):\n");
    let body = crate::text::join_texts(&ls, "\n");
    s.append(body.as_str());
    s.append("\n");
    s.append(cov.as_str());
    ToolReply { text: s, is_error: false }
}


// ---------------------------------------------------------------------------
// Reading a message.
// ---------------------------------------------------------------------------

/// Whether `text` is one JSON document, as `serde_json::from_str` into a
/// `serde_json::Value` decides.
pub uninterp spec fn json_parses(text: Seq<char>) -> bool;

/// The string that stands at a JSON pointer of the document `text`; `None`
/// where nothing does or what does is not a string.
pub uninterp spec fn json_text_at(text: Seq<char>, pointer: Seq<char>) -> Option<Seq<char>>;

/// The integer that stands at a JSON pointer of `text`, where it is a
/// number that fits an `i64`.
pub uninterp spec fn json_int_at(text: Seq<char>, pointer: Seq<char>) -> Option<i64>;

/// Whether any value stands at a JSON pointer of `text`.
pub uninterp spec fn json_present_at(text: Seq<char>, pointer: Seq<char>) -> bool;

/// The JSON text of the value that stands at a JSON pointer of `text`.
pub uninterp spec fn json_serialized_at(text: Seq<char>, pointer: Seq<char>) -> Option<Seq<char>>;

/// `serde_json::from_str::<serde_json::Value>`: whether it succeeds on
/// `text`. The contract names the outcome; serde_json's grammar is not
/// restated.
#[verifier::external_body]
fn parses(text: &str) -> (b: bool)
    ensures
        b == json_parses(text@),
{
    serde_json::from_str::<serde_json::Value>(text).is_ok()
}

/// `serde_json::from_str`, then `Value::pointer` and `Value::as_str`: the
/// string at `pointer`, named as a function of the text and the pointer.
#[verifier::external_body]
fn text_at(text: &str, pointer: &str) -> (r: Option<String>)
    ensures
        opt_text(r) == json_text_at(text@, pointer@),
{
    let v: serde_json::Value = serde_json::from_str(text).ok()?;
    v.pointer(pointer)?.as_str().map(String::from)
}

/// `serde_json::from_str`, then `Value::pointer` and `Value::as_i64`.
#[verifier::external_body]
fn int_at(text: &str, pointer: &str) -> (r: Option<i64>)
    ensures
        r == json_int_at(text@, pointer@),
{
    let v: serde_json::Value = serde_json::from_str(text).ok()?;
    v.pointer(pointer)?.as_i64()
}

/// `serde_json::from_str`, then whether `Value::pointer` finds a value.
#[verifier::external_body]
fn present_at(text: &str, pointer: &str) -> (b: bool)
    ensures
        b == json_present_at(text@, pointer@),
{
    match serde_json::from_str::<serde_json::Value>(text) {
        Ok(v) => v.pointer(pointer).is_some(),
        Err(_) => false,
    }
}

/// `serde_json::from_str`, `Value::pointer`, then the value's `to_string`
/// (its compact JSON text), so an id can be echoed as it came.
#[verifier::external_body]
fn serialized_at(text: &str, pointer: &str) -> (r: Option<String>)
    ensures
        opt_text(r) == json_serialized_at(text@, pointer@),
{
    let v: serde_json::Value = serde_json::from_str(text).ok()?;
    let x = v.pointer(pointer)?;
    Some(x.to_string())
}

/// What the server reads of one JSON-RPC message: the method, the id (as an
/// integer where it is one, and as its JSON text to echo back), whether the
/// message has params and declares the elicitation capability, the tool name
/// and its arguments, and an elicitation answer's action and name.
#[derive(Debug, Clone)]
pub struct RpcFields {
    pub method: Option<String>,
    pub id: Option<i64>,
    pub id_text: Option<String>,
    pub has_params: bool,
    pub elicits: bool,
    pub tool: Option<String>,
    pub args: ToolArgs,
    pub slug: Option<String>,
    pub op: Option<String>,
    pub description: Option<String>,
    pub body: Option<String>,
    pub entry_type: Option<String>,
    pub superseded_by: Option<String>,
    pub action: Option<String>,
    pub elicited_name: Option<String>,
}

pub struct RpcView {
    pub method: Option<Seq<char>>,
    pub id: Option<i64>,
    pub id_text: Option<Seq<char>>,
    pub has_params: bool,
    pub elicits: bool,
    pub tool: Option<Seq<char>>,
    pub name: Option<Seq<char>>,
    pub purpose: Option<Seq<char>>,
    pub at: Option<Seq<char>>,
    pub source: Option<Seq<char>>,
    pub slug: Option<Seq<char>>,
    pub op: Option<Seq<char>>,
    pub description: Option<Seq<char>>,
    pub body: Option<Seq<char>>,
    pub entry_type: Option<Seq<char>>,
    pub superseded_by: Option<Seq<char>>,
    pub action: Option<Seq<char>>,
    pub elicited_name: Option<Seq<char>>,
}

impl View for RpcFields {
    type V = RpcView;

    open spec fn view(&self) -> RpcView {
        RpcView {
            method: opt_text(self.method),
            id: self.id,
            id_text: opt_text(self.id_text),
            has_params: self.has_params,
            elicits: self.elicits,
            tool: opt_text(self.tool),
            name: opt_text(self.args.name),
            purpose: opt_text(self.args.purpose),
            at: opt_text(self.args.at),
            source: opt_text(self.args.source),
            slug: opt_text(self.slug),
            op: opt_text(self.op),
            description: opt_text(self.description),
            body: opt_text(self.body),
            entry_type: opt_text(self.entry_type),
            superseded_by: opt_text(self.superseded_by),
            action: opt_text(self.action),
            elicited_name: opt_text(self.elicited_name),
        }
    }
}

/// The fields of the JSON document `t`, each read at its pointer.
pub open spec fn fields_of(t: Seq<char>) -> RpcView {
    RpcView {
        method: json_text_at(t, "/method"@),
        id: json_int_at(t, "/id"@),
        id_text: json_serialized_at(t, "/id"@),
        has_params: json_present_at(t, "/params"@),
        elicits: json_present_at(t, "/params/capabilities/elicitation"@),
        tool: json_text_at(t, "/params/name"@),
        name: json_text_at(t, "/params/arguments/name"@),
        purpose: json_text_at(t, "/params/arguments/purpose"@),
        at: json_text_at(t, "/params/arguments/at"@),
        source: json_text_at(t, "/params/arguments/source"@),
        slug: json_text_at(t, "/params/arguments/slug"@),
        op: json_text_at(t, "/params/arguments/op"@),
        description: json_text_at(t, "/params/arguments/description"@),
        body: json_text_at(t, "/params/arguments/body"@),
        entry_type: json_text_at(t, "/params/arguments/type"@),
        superseded_by: json_text_at(t, "/params/arguments/superseded_by"@),
        action: json_text_at(t, "/result/action"@),
        elicited_name: json_text_at(t, "/result/content/name"@),
    }
}

/// What a line of input is to the server: nothing where, trimmed, it is
/// blank or no JSON (such a line is skipped); else the fields of the trimmed
/// line.
pub open spec fn message_view(line: Seq<char>) -> Option<RpcView> {
    let t = trim(line);
    if t.len() == 0 || !json_parses(t) {
        None
    } else {
        Some(fields_of(t))
    }
}

/// Read one line of newline-delimited JSON-RPC: `None` for a blank line or
/// one that is not JSON, which the server skips.
pub fn message_of_line(line: &str) -> (r: Option<RpcFields>)
    ensures
        match r {
            Some(m) => message_view(line@) == Some(m@),
            None => message_view(line@) is None,
        },
{
    let tv = trim_exec(&chars_of(line));
    if tv.len() == 0 {
        return None;
    }
    let owned = string_of(&tv);
    let t = owned.as_str();
    if !parses(t) {
        return None;
    }
    let args = ToolArgs {
        name: text_at(t, "/params/arguments/name"),
        purpose: text_at(t, "/params/arguments/purpose"),
        at: text_at(t, "/params/arguments/at"),
        source: text_at(t, "/params/arguments/source"),
    };
    let m = RpcFields {
        method: text_at(t, "/method"),
        id: int_at(t, "/id"),
        id_text: serialized_at(t, "/id"),
        has_params: present_at(t, "/params"),
        elicits: present_at(t, "/params/capabilities/elicitation"),
        tool: text_at(t, "/params/name"),
        args,
        slug: text_at(t, "/params/arguments/slug"),
        op: text_at(t, "/params/arguments/op"),
        description: text_at(t, "/params/arguments/description"),
        body: text_at(t, "/params/arguments/body"),
        entry_type: text_at(t, "/params/arguments/type"),
        superseded_by: text_at(t, "/params/arguments/superseded_by"),
        action: text_at(t, "/result/action"),
        elicited_name: text_at(t, "/result/content/name"),
    };
    Some(m)
}

/// Whether a message is answered: it carries an `id` that is not `null` (a
/// notification carries none).
pub open spec fn wants_reply(m: RpcView) -> bool {
    match m.id_text {
        Some(s) => s != "null"@,
        None => false,
    }
}

/// Whether the server writes a response to this message.
pub fn expects_reply(m: &RpcFields) -> (b: bool)
    ensures
        b == wants_reply(m@),
{
    match &m.id_text {
        Some(s) => {
            proof { reveal_strlit("null"); }
            !eq_chars(&chars_of(s.as_str()), &chars_of("null"))
        },
        None => false,
    }
}

/// Whether the client can be asked for a name after an `initialize`: what
/// its params declare, or, where the message has no params, what was known
/// before.
pub fn elicits_after_initialize(before: bool, m: &RpcFields) -> (b: bool)
    ensures
        b == if m.has_params {
            m.elicits
        } else {
            before
        },
{
    if m.has_params {
        m.elicits
    } else {
        before
    }
}

/// Whether a message answers the elicitation request with id `eid`; any
/// other message met while waiting is skipped.
pub fn is_reply_to(m: &RpcFields, eid: i64) -> (b: bool)
    ensures
        b == (m.id == Some(eid)),
{
    match m.id {
        Some(i) => i == eid,
        None => false,
    }
}


/// The name from an elicitation response: its `result.action` must be
/// `accept` and its `result.content.name` a string that is not blank, which
/// comes back trimmed.
pub fn name_from_elicitation(resp: &RpcFields) -> (r: Option<String>)
    ensures
        opt_text(r) == elicited_name(resp@.action, resp@.elicited_name),
{
    let action: Option<&str> = match &resp.action {
        Some(a) => Some(a.as_str()),
        None => None,
    };
    let name: Option<&str> = match &resp.elicited_name {
        Some(n) => Some(n.as_str()),
        None => None,
    };
    accepted_name(action, name)
}


/// What a memory tool call asks of the store, its slug read: the listing, a
/// read, a delete or a write of the named entry, or the audit; or an answer
/// at once, for a call that names no entry or a memory tool nobody serves.
pub enum MemoryStep {
    List,
    Read { slug: String },
    Delete { slug: String },
    Write { slug: String },
    Consolidate,
    Answer { reply: ToolReply },
}

/// The slug a memory call names: its `slug` argument trimmed, empty where
/// it has none.
pub open spec fn slug_of(m: RpcView) -> Seq<char> {
    match m.slug {
        Some(s) => trim(s),
        None => Seq::empty(),
    }
}

/// What the memory tool `verb` does with the call `m`.
pub fn memory_step(verb: &str, m: &RpcFields) -> (r: MemoryStep)
    ensures
        verb@ == "memory_list"@ ==> r is List,
        verb@ == "memory_read"@ ==> if slug_of(m@).len() == 0 {
            r matches MemoryStep::Answer { reply } && reply.is_error && reply.text@ == "memory_read"@
                + " requires a 'slug'"@
        } else {
            r matches MemoryStep::Read { slug } && slug@ == slug_of(m@)
        },
        verb@ == "memory_write"@ ==> if slug_of(m@).len() == 0 {
            r matches MemoryStep::Answer { reply } && reply.is_error && reply.text@ == "memory_write"@
                + " requires a 'slug'"@
        } else if m@.op == Some("delete"@) {
            r matches MemoryStep::Delete { slug } && slug@ == slug_of(m@)
        } else {
            r matches MemoryStep::Write { slug } && slug@ == slug_of(m@)
        },
        verb@ == "memory_consolidate"@ ==> r is Consolidate,
        tool_route(verb@) != ToolRoute::Memory ==> (r matches MemoryStep::Answer { reply } && reply.is_error
            && reply.text@ == "unknown memory tool: "@ + verb@),
{
    let slug_text: Option<&str> = match &m.slug {
        Some(s) => Some(s.as_str()),
        None => None,
    };
    let slug = slug_arg(slug_text);
    proof {
        reveal_strlit("memory_list");
        reveal_strlit("memory_read");
        reveal_strlit("memory_write");
        reveal_strlit("memory_consolidate");
        assert("memory_list"@[7] != "memory_read"@[7]);
        assert("memory_list"@[7] != "memory_write"@[7]);
        assert("memory_read"@[7] != "memory_write"@[7]);
    }
    let op: Option<&str> = match &m.op {
        Some(o) => Some(o.as_str()),
        None => None,
    };
    if is_text(verb, "memory_list") {
        MemoryStep::List
    } else if is_text(verb, "memory_read") {
        if slug.unicode_len() == 0 {
            MemoryStep::Answer { reply: slug_required("memory_read") }
        } else {
            MemoryStep::Read { slug }
        }
    } else if is_text(verb, "memory_write") {
        if slug.unicode_len() == 0 {
            MemoryStep::Answer { reply: slug_required("memory_write") }
        } else if is_delete(op) {
            MemoryStep::Delete { slug }
        } else {
            MemoryStep::Write { slug }
        }
    } else if is_text(verb, "memory_consolidate") {
        MemoryStep::Consolidate
    } else {
        let mut s = String::from_str("unknown memory tool: ");
        s.append(verb);
        MemoryStep::Answer { reply: ToolReply { text: s, is_error: true } }
    }
}

} // verus!
