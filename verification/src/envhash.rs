//! The local environment fingerprint (`.host-envhash`) and its check.
//!
//! The fingerprint records state, one stanza per dimension: the worktree
//! paths present, the installed hook binary's hash, the pulled toolchain
//! image digest, the submodule init state, and the repository's absolute
//! path. A check diffs dimension by dimension and reports only the rows that
//! moved. It is no receipt (no timestamp, no disposition, no evidence) and no
//! gate: a delta is a route to look at. A dimension this machine cannot read
//! records `unreadable` and is never reported as moved.
//!
//! Reading the dimensions off the machine (hashing, the container runtime,
//! git) is the program's part; this module holds the partition of facts, the
//! file format, the delta and the report.

use vstd::prelude::*;
use vstd::string::*;

use crate::memory::{decimal_text, padded};
use crate::text::{
    chars_of, eq_chars, lines, lines_exec, slice, starts_with, starts_with_exec, string_of, string_views,
    trim, trim_exec, views, strictly_sorted, insert_sorted, joined, join_texts, text_lt, sort_texts,
    second_field, second_field_exec, concat, strip_cr, lemma_lines_one, lemma_lines_concat, lemma_trim_noop,
    lemma_trimmed_ends, lemma_trim_after_ws,
};

verus! {

/// The fingerprint file. It describes this machine, so it is gitignored.
pub const ENVHASH: &'static str = ".host-envhash";

/// The two artifacts that record facts about a tree.
#[derive(Debug, Clone, Copy, PartialEq, Eq, Structural)]
pub enum Artifact {
    /// The append-only provenance ledger: what happened.
    Receipt,
    /// The fingerprint: what the tree looks like now.
    EnvHash,
}

/// Every fact either artifact records: seven event facts for the receipt,
/// five state facts for the fingerprint.
#[derive(Debug, Clone, Copy, PartialEq, Eq, Structural)]
pub enum RecordedFact {
    MaterializationHappened,
    Disposition,
    Evidence,
    RecordedAt,
    ComponentNamed,
    PinReference,
    ImageReference,
    WorktreePresent,
    HookBinaryHash,
    ImageDigest,
    SubmoduleInitState,
    RepoAbspath,
}

/// Every fact, in declaration order.
pub open spec fn all_facts() -> Seq<RecordedFact> {
    seq![
        RecordedFact::MaterializationHappened,
        RecordedFact::Disposition,
        RecordedFact::Evidence,
        RecordedFact::RecordedAt,
        RecordedFact::ComponentNamed,
        RecordedFact::PinReference,
        RecordedFact::ImageReference,
        RecordedFact::WorktreePresent,
        RecordedFact::HookBinaryHash,
        RecordedFact::ImageDigest,
        RecordedFact::SubmoduleInitState,
        RecordedFact::RepoAbspath,
    ]
}

/// Every fact, so the partition can be swept rather than restated.
pub fn facts() -> (v: Vec<RecordedFact>)
    ensures
        v@ == all_facts(),
{
    let v = vec![
        RecordedFact::MaterializationHappened,
        RecordedFact::Disposition,
        RecordedFact::Evidence,
        RecordedFact::RecordedAt,
        RecordedFact::ComponentNamed,
        RecordedFact::PinReference,
        RecordedFact::ImageReference,
        RecordedFact::WorktreePresent,
        RecordedFact::HookBinaryHash,
        RecordedFact::ImageDigest,
        RecordedFact::SubmoduleInitState,
        RecordedFact::RepoAbspath,
    ];
    assert(v@ =~= all_facts());
    v
}

/// The event facts: what happened, never what the tree looks like.
pub open spec fn is_event_fact(f: RecordedFact) -> bool {
    matches!(f, RecordedFact::MaterializationHappened | RecordedFact::Disposition | RecordedFact::Evidence
        | RecordedFact::RecordedAt | RecordedFact::ComponentNamed | RecordedFact::PinReference
        | RecordedFact::ImageReference)
}

/// Which artifact records a fact.
pub open spec fn owner_of(f: RecordedFact) -> Artifact {
    if is_event_fact(f) { Artifact::Receipt } else { Artifact::EnvHash }
}

pub fn artifact_of(fact: RecordedFact) -> (a: Artifact)
    ensures
        a == owner_of(fact),
{
    match fact {
        RecordedFact::MaterializationHappened
        | RecordedFact::Disposition
        | RecordedFact::Evidence
        | RecordedFact::RecordedAt
        | RecordedFact::ComponentNamed
        | RecordedFact::PinReference
        | RecordedFact::ImageReference => Artifact::Receipt,
        RecordedFact::WorktreePresent
        | RecordedFact::HookBinaryHash
        | RecordedFact::ImageDigest
        | RecordedFact::SubmoduleInitState
        | RecordedFact::RepoAbspath => Artifact::EnvHash,
    }
}

/// Every fact lands in exactly one artifact: the event facts in the receipt,
/// the state facts in the fingerprint, so no fact is recorded by both.
pub proof fn lemma_artifacts_share_no_fact(f: RecordedFact)
    ensures
        owner_of(f) == Artifact::Receipt || owner_of(f) == Artifact::EnvHash,
        !(owner_of(f) == Artifact::Receipt && owner_of(f) == Artifact::EnvHash),
        is_event_fact(f) <==> owner_of(f) == Artifact::Receipt,
{
}

pub open spec fn token_of(f: RecordedFact) -> Seq<char> {
    match f {
        RecordedFact::MaterializationHappened => "materialize"@,
        RecordedFact::Disposition => "disposition"@,
        RecordedFact::Evidence => "evidence"@,
        RecordedFact::RecordedAt => "recorded ="@,
        RecordedFact::ComponentNamed => "component"@,
        RecordedFact::PinReference => "pin "@,
        RecordedFact::ImageReference => "toolchain"@,
        RecordedFact::WorktreePresent => "worktree_paths"@,
        RecordedFact::HookBinaryHash => "hook_binary"@,
        RecordedFact::ImageDigest => "pulled_image"@,
        RecordedFact::SubmoduleInitState => "submodule_init"@,
        RecordedFact::RepoAbspath => "repo_path"@,
    }
}

/// The token a fact appears under in the file that owns it.
pub fn fact_token(fact: RecordedFact) -> (t: &'static str)
    ensures
        t@ == token_of(fact),
{
    match fact {
        RecordedFact::MaterializationHappened => "materialize",
        RecordedFact::Disposition => "disposition",
        RecordedFact::Evidence => "evidence",
        RecordedFact::RecordedAt => "recorded =",
        RecordedFact::ComponentNamed => "component",
        RecordedFact::PinReference => "pin ",
        RecordedFact::ImageReference => "toolchain",
        RecordedFact::WorktreePresent => "worktree_paths",
        RecordedFact::HookBinaryHash => "hook_binary",
        RecordedFact::ImageDigest => "pulled_image",
        RecordedFact::SubmoduleInitState => "submodule_init",
        RecordedFact::RepoAbspath => "repo_path",
    }
}

/// One dimension as read on this machine; `None` is unreadable here.
#[derive(Debug, Clone, PartialEq, Eq)]
pub struct EnvDimension {
    pub kind: String,
    pub value: Option<String>,
}

pub struct DimView {
    pub kind: Seq<char>,
    pub value: Option<Seq<char>>,
}

impl View for EnvDimension {
    type V = DimView;

    open spec fn view(&self) -> DimView {
        DimView {
            kind: self.kind@,
            value: match &self.value {
                Some(v) => Some(v@),
                None => None,
            },
        }
    }
}

pub open spec fn dim_views(v: Seq<EnvDimension>) -> Seq<DimView> {
    v.map_values(|d: EnvDimension| d@)
}

/// The state facts, in declaration order: the fingerprint's dimensions.
pub open spec fn state_facts(fs: Seq<RecordedFact>) -> Seq<RecordedFact>
    decreases fs.len(),
{
    if fs.len() == 0 {
        Seq::empty()
    } else if owner_of(fs.last()) == Artifact::EnvHash {
        state_facts(fs.drop_last()).push(fs.last())
    } else {
        state_facts(fs.drop_last())
    }
}

proof fn lemma_state_facts_concat(a: Seq<RecordedFact>, b: Seq<RecordedFact>)
    ensures
        state_facts(a + b) == state_facts(a) + state_facts(b),
    decreases b.len(),
{
    if b.len() == 0 {
        assert(a + b =~= a);
        assert(state_facts(a) + state_facts(b) =~= state_facts(a));
    } else {
        lemma_state_facts_concat(a, b.drop_last());
        assert((a + b).drop_last() =~= a + b.drop_last());
        assert((a + b).last() == b.last());
        if owner_of(b.last()) == Artifact::EnvHash {
            assert(state_facts(a) + state_facts(b.drop_last()).push(b.last()) =~= (state_facts(a) + state_facts(b.drop_last())).push(b.last()));
        }
    }
}

fn clone_value(o: &Option<String>) -> (r: Option<String>)
    ensures
        r == *o,
{
    match o {
        Some(v) => Some(v.clone()),
        None => None,
    }
}

/// The fingerprint's dimensions: one per state fact, in declaration order,
/// under the fact's token, with the value read for it on this machine.
pub fn envhash_dimensions(values: &Vec<Option<String>>) -> (out: Vec<EnvDimension>)
    requires
        values@.len() == state_facts(all_facts()).len(),
    ensures
        out@.len() == values@.len(),
        forall|k: int| 0 <= k < out@.len() ==> (#[trigger] out@[k]).kind@ == token_of(state_facts(all_facts())[k])
            && out@[k].value == values@[k],
{
    let fs = facts();
    let ghost sf = state_facts(all_facts());
    let mut out: Vec<EnvDimension> = Vec::new();
    let mut i: usize = 0;
    let mut k: usize = 0;
    assert(fs@.subrange(0, 0) =~= Seq::<RecordedFact>::empty());
    assert(sf.subrange(0, 0) =~= Seq::<RecordedFact>::empty());
    while i < fs.len()
        invariant
            fs@ == all_facts(),
            i <= fs@.len(),
            sf == state_facts(all_facts()),
            values@.len() == sf.len(),
            k <= sf.len(),
            k <= i,
            state_facts(fs@.subrange(0, i as int)) == sf.subrange(0, k as int),
            out@.len() == k,
            forall|j: int| 0 <= j < k ==> (#[trigger] out@[j]).kind@ == token_of(sf[j]) && out@[j].value == values@[j],
        decreases fs.len() - i,
    {
        let f = fs[i];
        let ghost pre = fs@.subrange(0, i as int);
        let ghost sub = fs@.subrange(0, i + 1);
        assert(sub.drop_last() =~= pre);
        assert(sub.last() == f);
        proof {
            lemma_state_facts_concat(pre, fs@.subrange(i as int, fs@.len() as int));
            assert(pre + fs@.subrange(i as int, fs@.len() as int) =~= fs@);
            lemma_state_facts_concat(seq![f], fs@.subrange(i + 1, fs@.len() as int));
            assert(seq![f] + fs@.subrange(i + 1, fs@.len() as int) =~= fs@.subrange(i as int, fs@.len() as int));
            assert(seq![f].drop_last() =~= Seq::<RecordedFact>::empty());
        }
        if artifact_of(f) == Artifact::EnvHash {
            assert(k < sf.len());
            assert(sf[k as int] == f) by {
                assert(state_facts(Seq::<RecordedFact>::empty()) =~= Seq::<RecordedFact>::empty());
                assert(state_facts(seq![f]) =~= seq![f]);
                let rest = state_facts(fs@.subrange(i + 1, fs@.len() as int));
                assert(sf =~= sf.subrange(0, k as int) + (seq![f] + rest));
                assert((sf.subrange(0, k as int) + (seq![f] + rest))[k as int] == f);
            }
            let v = clone_value(&values[k]);
            let d = EnvDimension { kind: String::from_str(fact_token(f)), value: v };
            out.push(d);
            k = k + 1;
            assert(state_facts(sub) =~= sf.subrange(0, k as int));
        }
        i = i + 1;
    }
    assert(fs@.subrange(0, fs@.len() as int) =~= fs@);
    assert(sf.subrange(0, k as int) =~= sf);
    out
}

// ---------------------------------------------------------------------------
// The file format.
// ---------------------------------------------------------------------------

pub open spec fn envhash_header() -> Seq<char> {
    "# The local environment fingerprint (host-lifecycle#19): what this tree looks\n# like now, never what was done to it. Gitignored, tool-written.\n"@
}

/// One dimension's stanza.
pub open spec fn stanza(d: DimView) -> Seq<char> {
    "\n[envhash \""@ + d.kind + "\"]\n"@ + match d.value {
        Some(v) => "    value = "@ + v + "\n"@,
        None => "    unreadable = true\n"@,
    }
}

pub open spec fn stanzas(ds: Seq<DimView>) -> Seq<char>
    decreases ds.len(),
{
    if ds.len() == 0 {
        Seq::empty()
    } else {
        stanzas(ds.drop_last()) + stanza(ds.last())
    }
}

/// The fingerprint file: a comment header, one stanza per dimension.
pub open spec fn envhash_file(ds: Seq<DimView>) -> Seq<char> {
    envhash_header() + stanzas(ds)
}

pub fn envhash_text(dims: &Vec<EnvDimension>) -> (r: String)
    ensures
        r@ == envhash_file(dim_views(dims@)),
{
    let mut s = String::from_str("# The local environment fingerprint (host-lifecycle#19): what this tree looks\n# like now, never what was done to it. Gitignored, tool-written.\n");
    let mut i: usize = 0;
    assert(dim_views(dims@).subrange(0, 0) =~= Seq::<DimView>::empty());
    while i < dims.len()
        invariant
            i <= dims@.len(),
            s@ == envhash_header() + stanzas(dim_views(dims@).subrange(0, i as int)),
        decreases dims.len() - i,
    {
        let d = &dims[i];
        s.append("\n[envhash \"");
        s.append(d.kind.as_str());
        s.append("\"]\n");
        match &d.value {
            Some(v) => {
                s.append("    value = ");
                s.append(v.as_str());
                s.append("\n");
            },
            None => {
                s.append("    unreadable = true\n");
            },
        }
        let ghost sub = dim_views(dims@).subrange(0, i + 1);
        assert(sub.drop_last() =~= dim_views(dims@).subrange(0, i as int));
        assert(sub.last() == d@);
        i = i + 1;
    }
    assert(dim_views(dims@).subrange(0, dims@.len() as int) =~= dim_views(dims@));
    s
}

/// A stanza header's kind: the text between `[envhash "` and a final `"]`.
pub open spec fn header_kind(t: Seq<char>) -> Option<Seq<char>> {
    if starts_with(t, "[envhash \""@) {
        let rest = t.subrange(10, t.len() as int);
        if rest.len() >= 2 && rest.subrange(rest.len() - 2, rest.len() as int) == "\"]"@ {
            Some(rest.subrange(0, rest.len() - 2))
        } else {
            None
        }
    } else {
        None
    }
}

/// The dimensions recorded by the lines read so far: a header opens an
/// unreadable dimension, a `value = ` line sets the last one's value; blank
/// lines, comments and other lines change nothing.
pub open spec fn recorded_dims(ls: Seq<Seq<char>>) -> Seq<DimView>
    decreases ls.len(),
{
    if ls.len() == 0 {
        Seq::empty()
    } else {
        let out = recorded_dims(ls.drop_last());
        let t = trim(ls.last());
        if t.len() == 0 || t[0] == '#' {
            out
        } else {
            match header_kind(t) {
                Some(k) => out.push(DimView { kind: k, value: None }),
                None => if starts_with(t, "value = "@) && out.len() > 0 {
                    out.update(out.len() - 1, DimView { kind: out.last().kind, value: Some(trim(t.subrange(8, t.len() as int))) })
                } else {
                    out
                },
            }
        }
    }
}

/// Read a recorded fingerprint back into its dimensions.
pub fn parse_envhash(text: &str) -> (out: Vec<EnvDimension>)
    ensures
        dim_views(out@) == recorded_dims(lines(text@)),
{
    let ls = lines_exec(&chars_of(text));
    let open_ = chars_of("[envhash \"");
    let close = chars_of("\"]");
    let val = chars_of("value = ");
    proof {
        reveal_strlit("[envhash \"");
        reveal_strlit("\"]");
        reveal_strlit("value = ");
    }
    let mut out: Vec<EnvDimension> = Vec::new();
    let mut i: usize = 0;
    assert(views(ls@).subrange(0, 0) =~= Seq::<Seq<char>>::empty());
    while i < ls.len()
        invariant
            i <= ls@.len(),
            views(ls@) == lines(text@),
            open_@ == "[envhash \""@ && open_@.len() == 10,
            close@ == "\"]"@ && close@.len() == 2,
            val@ == "value = "@ && val@.len() == 8,
            dim_views(out@) == recorded_dims(views(ls@).subrange(0, i as int)),
        decreases ls.len() - i,
    {
        let ghost sub = views(ls@).subrange(0, i + 1);
        assert(sub.drop_last() =~= views(ls@).subrange(0, i as int));
        assert(sub.last() == ls@[i as int]@);
        let t = trim_exec(&ls[i]);
        if t.len() == 0 || t[0] == '#' {
        } else {
            let mut kind: Option<Vec<char>> = None;
            if starts_with_exec(&t, &open_) {
                let rest = slice(&t, 10, t.len());
                if rest.len() >= 2 && eq_chars(&slice(&rest, rest.len() - 2, rest.len()), &close) {
                    kind = Some(slice(&rest, 0, rest.len() - 2));
                }
            }
            match kind {
                Some(k) => {
                    let ghost b = dim_views(out@);
                    let d = EnvDimension { kind: string_of(&k), value: None };
                    out.push(d);
                    assert(dim_views(out@) =~= b.push(DimView { kind: k@, value: None }));
                },
                None => {
                    if starts_with_exec(&t, &val) && out.len() > 0 {
                        let ghost b = dim_views(out@);
                        let v = string_of(&trim_exec(&slice(&t, 8, t.len())));
                        let last = out.len() - 1;
                        let kd = out[last].kind.clone();
                        let ghost nv = DimView { kind: b.last().kind, value: Some(v@) };
                        out.set(last, EnvDimension { kind: kd, value: Some(v) });
                        assert(dim_views(out@) =~= b.update(b.len() - 1, nv));
                    }
                },
            }
        }
        i = i + 1;
    }
    assert(views(ls@).subrange(0, ls@.len() as int) =~= views(ls@));
    out
}

// ---------------------------------------------------------------------------
// The delta.
// ---------------------------------------------------------------------------

/// The value recorded for a kind: that of the first recorded dimension of the
/// kind, if any.
pub open spec fn recorded_value(rs: Seq<DimView>, kind: Seq<char>) -> Option<Seq<char>>
    decreases rs.len(),
{
    if rs.len() == 0 {
        None
    } else if rs[0].kind == kind {
        rs[0].value
    } else {
        recorded_value(rs.drop_first(), kind)
    }
}

/// The kinds that moved: each dimension readable now whose value differs
/// from the recorded one, in the order read now.
pub open spec fn moved_kinds(rs: Seq<DimView>, cs: Seq<DimView>) -> Seq<Seq<char>>
    decreases cs.len(),
{
    if cs.len() == 0 {
        Seq::empty()
    } else {
        let c = cs.last();
        let prev = moved_kinds(rs, cs.drop_last());
        if c.value is Some && recorded_value(rs, c.kind) != c.value {
            prev.push(c.kind)
        } else {
            prev
        }
    }
}

fn recorded_value_exec(recorded: &Vec<EnvDimension>, kind: &String) -> (r: Option<String>)
    ensures
        match r {
            Some(v) => recorded_value(dim_views(recorded@), kind@) == Some(v@),
            None => recorded_value(dim_views(recorded@), kind@) is None,
        },
{
    let kc = chars_of(kind.as_str());
    let mut i: usize = 0;
    assert(dim_views(recorded@).subrange(0, dim_views(recorded@).len() as int) =~= dim_views(recorded@));
    while i < recorded.len()
        invariant
            i <= recorded@.len(),
            kc@ == kind@,
            recorded_value(dim_views(recorded@), kind@) == recorded_value(dim_views(recorded@).subrange(i as int, recorded@.len() as int), kind@),
        decreases recorded.len() - i,
    {
        let ghost sub = dim_views(recorded@).subrange(i as int, recorded@.len() as int);
        assert(sub[0] == recorded@[i as int]@);
        assert(sub.drop_first() =~= dim_views(recorded@).subrange(i + 1, recorded@.len() as int));
        if eq_chars(&chars_of(recorded[i].kind.as_str()), &kc) {
            return match &recorded[i].value {
                Some(v) => Some(v.clone()),
                None => None,
            };
        }
        i = i + 1;
    }
    None
}

/// The dimensions that moved: read now, differing from what was recorded. A
/// dimension unreadable now never moves, whatever the record says.
pub fn envhash_delta(recorded: &Vec<EnvDimension>, current: &Vec<EnvDimension>) -> (moved: Vec<String>)
    ensures
        string_views(moved@) == moved_kinds(dim_views(recorded@), dim_views(current@)),
{
    let mut moved: Vec<String> = Vec::new();
    let mut i: usize = 0;
    assert(dim_views(current@).subrange(0, 0) =~= Seq::<DimView>::empty());
    while i < current.len()
        invariant
            i <= current@.len(),
            string_views(moved@) == moved_kinds(dim_views(recorded@), dim_views(current@).subrange(0, i as int)),
        decreases current.len() - i,
    {
        let c = &current[i];
        let ghost sub = dim_views(current@).subrange(0, i + 1);
        assert(sub.drop_last() =~= dim_views(current@).subrange(0, i as int));
        assert(sub.last() == c@);
        match &c.value {
            Some(now) => {
                let was = recorded_value_exec(recorded, &c.kind);
                let same = match &was {
                    Some(w) => eq_chars(&chars_of(w.as_str()), &chars_of(now.as_str())),
                    None => false,
                };
                if !same {
                    let ghost b = string_views(moved@);
                    moved.push(c.kind.clone());
                    assert(string_views(moved@) =~= b.push(c.kind@));
                }
            },
            None => {},
        }
        i = i + 1;
    }
    assert(dim_views(current@).subrange(0, current@.len() as int) =~= dim_views(current@));
    moved
}

/// Every reported delta names a dimension read now: one of the current
/// dimensions carries its kind, is readable, and differs from the record.
/// An unreadable dimension is never reported.
pub proof fn lemma_delta_names_readable_moved(rs: Seq<DimView>, cs: Seq<DimView>)
    ensures
        forall|k: int| 0 <= k < moved_kinds(rs, cs).len() ==> exists|j: int|
            0 <= j < cs.len() && (#[trigger] cs[j]).kind == (#[trigger] moved_kinds(rs, cs)[k]) && cs[j].value is Some
                && recorded_value(rs, cs[j].kind) != cs[j].value,
    decreases cs.len(),
{
    if cs.len() > 0 {
        lemma_delta_names_readable_moved(rs, cs.drop_last());
        let m = moved_kinds(rs, cs);
        let p = moved_kinds(rs, cs.drop_last());
        assert forall|k: int| 0 <= k < m.len() implies exists|j: int|
            0 <= j < cs.len() && (#[trigger] cs[j]).kind == (#[trigger] m[k]) && cs[j].value is Some
                && recorded_value(rs, cs[j].kind) != cs[j].value by {
            if k < p.len() {
                assert(m[k] == p[k]);
                let j = choose|j: int| 0 <= j < cs.drop_last().len() && (#[trigger] cs.drop_last()[j]).kind == (#[trigger] p[k])
                    && cs.drop_last()[j].value is Some && recorded_value(rs, cs.drop_last()[j].kind) != cs.drop_last()[j].value;
                assert(cs[j] == cs.drop_last()[j]);
            } else {
                assert(cs[cs.len() - 1] == cs.last());
            }
        }
    }
}

/// A dimension recorded with the value read now never moves.
pub proof fn lemma_unmoved_tree_is_clean(ds: Seq<DimView>)
    requires
        forall|i: int, j: int| 0 <= i < j < ds.len() ==> (#[trigger] ds[i]).kind != (#[trigger] ds[j]).kind,
    ensures
        moved_kinds(ds, ds).len() == 0,
{
    lemma_unmoved_prefix(ds, ds.len() as int);
    assert(ds.subrange(0, ds.len() as int) =~= ds);
}

proof fn lemma_recorded_value_at(rs: Seq<DimView>, j: int)
    requires
        0 <= j < rs.len(),
        forall|i: int| 0 <= i < j ==> (#[trigger] rs[i]).kind != rs[j].kind,
    ensures
        recorded_value(rs, rs[j].kind) == rs[j].value,
    decreases j,
{
    if j > 0 {
        assert(rs[0].kind != rs[j].kind);
        assert forall|i: int| 0 <= i < j - 1 implies (#[trigger] rs.drop_first()[i]).kind != rs.drop_first()[j - 1].kind by {
            assert(rs.drop_first()[i] == rs[i + 1]);
        }
        lemma_recorded_value_at(rs.drop_first(), j - 1);
    }
}

proof fn lemma_unmoved_prefix(ds: Seq<DimView>, n: int)
    requires
        0 <= n <= ds.len(),
        forall|i: int, j: int| 0 <= i < j < ds.len() ==> (#[trigger] ds[i]).kind != (#[trigger] ds[j]).kind,
    ensures
        moved_kinds(ds, ds.subrange(0, n)).len() == 0,
    decreases n,
{
    if n > 0 {
        lemma_unmoved_prefix(ds, n - 1);
        assert(ds.subrange(0, n).drop_last() =~= ds.subrange(0, n - 1));
        assert(ds.subrange(0, n).last() == ds[n - 1]);
        assert forall|i: int| 0 <= i < n - 1 implies (#[trigger] ds[i]).kind != ds[n - 1].kind by {}
        lemma_recorded_value_at(ds, n - 1);
    }
}

// ---------------------------------------------------------------------------
// The check's report.
// ---------------------------------------------------------------------------

/// What a moved dimension means, and what to run if anything.
pub open spec fn meaning(kind: Seq<char>) -> Seq<char> {
    if kind == "worktree_paths"@ {
        "a component worktree appeared or disappeared; run `software --verify-setup <dir>` to see whether the setup is still complete"@
    } else if kind == "hook_binary"@ {
        "the installed commit-gate binary changed (rebuilt or reinstalled); if that was not you, re-run `software --install-hooks <dir>`"@
    } else if kind == "pulled_image"@ {
        "the locally pulled toolchain image is a different digest; rebuild with `software --verify-build <dir>` to confirm the artifact still reproduces"@
    } else if kind == "submodule_init"@ {
        "a submodule was initialized or de-initialized; run `git submodule update --init` if one is missing"@
    } else if kind == "repo_path"@ {
        "the repository sits at a different absolute path than when the fingerprint was recorded (a move or a second clone); nothing to fix"@
    } else {
        "this dimension differs from the recorded fingerprint"@
    }
}

pub fn dimension_meaning(kind: &str) -> (r: &'static str)
    ensures
        r@ == meaning(kind@),
{
    let k = chars_of(kind);
    if eq_chars(&k, &chars_of("worktree_paths")) {
        "a component worktree appeared or disappeared; run `software --verify-setup <dir>` to see whether the setup is still complete"
    } else if eq_chars(&k, &chars_of("hook_binary")) {
        "the installed commit-gate binary changed (rebuilt or reinstalled); if that was not you, re-run `software --install-hooks <dir>`"
    } else if eq_chars(&k, &chars_of("pulled_image")) {
        "the locally pulled toolchain image is a different digest; rebuild with `software --verify-build <dir>` to confirm the artifact still reproduces"
    } else if eq_chars(&k, &chars_of("submodule_init")) {
        "a submodule was initialized or de-initialized; run `git submodule update --init` if one is missing"
    } else if eq_chars(&k, &chars_of("repo_path")) {
        "the repository sits at a different absolute path than when the fingerprint was recorded (a move or a second clone); nothing to fix"
    } else {
        "this dimension differs from the recorded fingerprint"
    }
}

/// The check's outcome: its exit code, the lines for standard output, and the
/// line for standard error, if any.
pub struct EnvReport {
    pub code: i32,
    pub out: Vec<String>,
    pub err: Option<String>,
}

pub open spec fn unread_lines(cs: Seq<DimView>) -> Seq<Seq<char>>
    decreases cs.len(),
{
    if cs.len() == 0 {
        Seq::empty()
    } else if cs.last().value is None {
        unread_lines(cs.drop_last()).push(
            "unread   "@ + cs.last().kind + " (not readable on this machine; never reported as moved)"@,
        )
    } else {
        unread_lines(cs.drop_last())
    }
}

/// The lines a check prints for a recorded fingerprint: each moved
/// dimension with what it means, each unreadable one, then the summary.
pub open spec fn check_lines(rs: Seq<DimView>, cs: Seq<DimView>) -> Seq<Seq<char>> {
    let moved = moved_kinds(rs, cs);
    moved.map_values(|k: Seq<char>| "moved    "@ + k + " \u{2014} "@ + meaning(k)) + unread_lines(cs)
        + seq![
        if moved.len() == 0 {
            "-- the tree matches the recorded fingerprint"@
        } else {
            "-- "@ + padded(moved.len(), 1)
                + " dimension(s) moved since the fingerprint was recorded. This is advisory: nothing is gated, and the fingerprint is re-recorded by the next `software --materialize <dir>` or `--install-hooks <dir>`. Act on the lines above only where one says to."@
        },
    ]
}

/// `env --check`: with no fingerprint recorded it cannot proceed (`2`);
/// otherwise it reports and exits `0`, delta or not: a delta routes, it
/// never gates.
pub fn env_check_report(recorded: Option<&str>, current: &Vec<EnvDimension>, root: &str) -> (r: EnvReport)
    ensures
        match recorded {
            None => r.code == 2 && r.out@.len() == 0 && r.err is Some && r.err->0@ == "host-lifecycle: no "@
                + ENVHASH@ + " recorded yet \u{2014} run `host-lifecycle software --materialize "@ + root@
                + "` to record one"@,
            Some(text) => r.code == 0 && r.err is None && string_views(r.out@) == check_lines(
                recorded_dims(lines(text@)),
                dim_views(current@),
            ),
        },
{
    let text = match recorded {
        None => {
            let mut e = String::from_str("host-lifecycle: no ");
            e.append(ENVHASH);
            e.append(" recorded yet \u{2014} run `host-lifecycle software --materialize ");
            e.append(root);
            e.append("` to record one");
            return EnvReport { code: 2, out: Vec::new(), err: Some(e) };
        },
        Some(t) => t,
    };
    let rec = parse_envhash(text);
    let moved = envhash_delta(&rec, current);
    let ghost mv = moved_kinds(dim_views(rec@), dim_views(current@));
    let mut out: Vec<String> = Vec::new();
    let mut i: usize = 0;
    while i < moved.len()
        invariant
            i <= moved@.len(),
            string_views(moved@) == mv,
            string_views(out@) == mv.subrange(0, i as int).map_values(|k: Seq<char>| "moved    "@ + k + " \u{2014} "@ + meaning(k)),
        decreases moved.len() - i,
    {
        let mut l = String::from_str("moved    ");
        l.append(moved[i].as_str());
        l.append(" \u{2014} ");
        l.append(dimension_meaning(moved[i].as_str()));
        let ghost b = string_views(out@);
        let ghost lv = l@;
        out.push(l);
        assert(string_views(out@) =~= b.push(lv));
        assert(mv[i as int] == moved@[i as int]@);
        assert(string_views(out@) =~= mv.subrange(0, i + 1).map_values(|k: Seq<char>| "moved    "@ + k + " \u{2014} "@ + meaning(k)));
        i = i + 1;
    }
    assert(mv.subrange(0, mv.len() as int) =~= mv);
    let ghost after_moved = string_views(out@);
    let mut j: usize = 0;
    assert(dim_views(current@).subrange(0, 0) =~= Seq::<DimView>::empty());
    assert(after_moved + unread_lines(Seq::<DimView>::empty()) =~= after_moved);
    while j < current.len()
        invariant
            j <= current@.len(),
            string_views(out@) == after_moved + unread_lines(dim_views(current@).subrange(0, j as int)),
        decreases current.len() - j,
    {
        let ghost sub = dim_views(current@).subrange(0, j + 1);
        assert(sub.drop_last() =~= dim_views(current@).subrange(0, j as int));
        assert(sub.last() == current@[j as int]@);
        if current[j].value.is_none() {
            let mut l = String::from_str("unread   ");
            l.append(current[j].kind.as_str());
            l.append(" (not readable on this machine; never reported as moved)");
            let ghost b = string_views(out@);
            let ghost lv = l@;
            out.push(l);
            assert(string_views(out@) =~= b.push(lv));
            assert(string_views(out@) =~= after_moved + unread_lines(sub));
        }
        j = j + 1;
    }
    assert(dim_views(current@).subrange(0, current@.len() as int) =~= dim_views(current@));
    let last = if moved.len() == 0 {
        String::from_str("-- the tree matches the recorded fingerprint")
    } else {
        let mut l = String::from_str("-- ");
        let n = decimal_text(moved.len() as u64);
        l.append(n.as_str());
        l.append(" dimension(s) moved since the fingerprint was recorded. This is advisory: nothing is gated, and the fingerprint is re-recorded by the next `software --materialize <dir>` or `--install-hooks <dir>`. Act on the lines above only where one says to.");
        l
    };
    let ghost b = string_views(out@);
    let ghost lv = last@;
    out.push(last);
    assert(string_views(out@) =~= b.push(lv));
    assert(string_views(out@) =~= check_lines(recorded_dims(lines(text@)), dim_views(current@)));
    EnvReport { code: 0, out, err: None }
}

// ---------------------------------------------------------------------------
// What the dimensions are read from.
// ---------------------------------------------------------------------------

/// The present worktree paths as the fingerprint hashes them: sorted, each
/// once, one per line.
pub fn worktree_paths_text(present: &Vec<String>) -> (r: String)
    ensures
        exists|ps: Seq<Seq<char>>| strictly_sorted(ps) && ps.to_set() == string_views(present@).to_set() && r@
            == joined(ps, "\n"@),
{
    let mut sorted: Vec<Vec<char>> = Vec::new();
    let mut i: usize = 0;
    assert(views(sorted@).to_set() =~= string_views(present@).subrange(0, 0).to_set());
    while i < present.len()
        invariant
            i <= present@.len(),
            strictly_sorted(views(sorted@)),
            views(sorted@).to_set() == string_views(present@).subrange(0, i as int).to_set(),
        decreases present.len() - i,
    {
        insert_sorted(&mut sorted, chars_of(present[i].as_str()));
        assert(string_views(present@).subrange(0, i + 1) =~= string_views(present@).subrange(0, i as int).push(present@[i as int]@));
        proof {
            let s0 = string_views(present@).subrange(0, i as int);
            Seq::lemma_to_set_insert_commutes(s0, present@[i as int]@);
            assert(s0 + seq![present@[i as int]@] =~= string_views(present@).subrange(0, i + 1));
        }
        i = i + 1;
    }
    assert(string_views(present@).subrange(0, present@.len() as int) =~= string_views(present@));
    let mut strs: Vec<String> = Vec::new();
    let mut k: usize = 0;
    while k < sorted.len()
        invariant
            k <= sorted@.len(),
            string_views(strs@) == views(sorted@).subrange(0, k as int),
        decreases sorted.len() - k,
    {
        let ghost b = string_views(strs@);
        let t = string_of(&sorted[k]);
        strs.push(t);
        assert(string_views(strs@) =~= b.push(sorted@[k as int]@));
        assert(views(sorted@).subrange(0, k + 1) =~= views(sorted@).subrange(0, k as int).push(sorted@[k as int]@));
        k = k + 1;
    }
    assert(views(sorted@).subrange(0, sorted@.len() as int) =~= views(sorted@));
    join_texts(&strs, "\n")
}

/// One `git submodule status` line as the fingerprint records it: `init` or
/// `bare` (a leading `-` marks an uninitialized submodule) and the path, the
/// line's second field.
pub open spec fn submodule_entry(l: Seq<char>) -> Option<Seq<char>> {
    match second_field(l) {
        Some(p) => Some((if l.len() > 0 && l[0] == '-' { "bare "@ } else { "init "@ }) + p),
        None => None,
    }
}

pub open spec fn submodule_entries(ls: Seq<Seq<char>>) -> Seq<Seq<char>>
    decreases ls.len(),
{
    if ls.len() == 0 {
        Seq::empty()
    } else {
        submodule_entries(ls.drop_last()) + match submodule_entry(ls.last()) {
            Some(e) => seq![e],
            None => Seq::<Seq<char>>::empty(),
        }
    }
}

/// The submodule init state from `git submodule status`: one entry per
/// submodule, sorted, one per line.
pub fn submodule_state_text(status: &str) -> (r: String)
    ensures
        exists|es: Seq<Seq<char>>|
            (forall|i: int, j: int| 0 <= i < j < es.len() ==> !text_lt(#[trigger] es[j], #[trigger] es[i]))
                && es.to_multiset() == submodule_entries(lines(status@)).to_multiset() && r@ == joined(es, "\n"@),
{
    let ls = lines_exec(&chars_of(status));
    let mut entries: Vec<Vec<char>> = Vec::new();
    let mut i: usize = 0;
    assert(views(ls@).subrange(0, 0) =~= Seq::<Seq<char>>::empty());
    while i < ls.len()
        invariant
            i <= ls@.len(),
            views(ls@) == lines(status@),
            views(entries@) == submodule_entries(views(ls@).subrange(0, i as int)),
        decreases ls.len() - i,
    {
        let l = &ls[i];
        let ghost sub = views(ls@).subrange(0, i + 1);
        assert(sub.drop_last() =~= views(ls@).subrange(0, i as int));
        assert(sub.last() == l@);
        match second_field_exec(l) {
            Some(p) => {
                let tag = if l.len() > 0 && l[0] == '-' { chars_of("bare ") } else { chars_of("init ") };
                let e = concat(&tag, &p);
                let ghost b = views(entries@);
                entries.push(e);
                assert(views(entries@) =~= b.push(e@));
                assert(views(entries@) =~= submodule_entries(sub));
            },
            None => {
                assert(views(entries@) =~= submodule_entries(sub));
            },
        }
        i = i + 1;
    }
    assert(views(ls@).subrange(0, ls@.len() as int) =~= views(ls@));
    let sorted = sort_texts(entries);
    let mut strs: Vec<String> = Vec::new();
    let mut k: usize = 0;
    while k < sorted.len()
        invariant
            k <= sorted@.len(),
            string_views(strs@) == views(sorted@).subrange(0, k as int),
        decreases sorted.len() - k,
    {
        let ghost b = string_views(strs@);
        let t = string_of(&sorted[k]);
        strs.push(t);
        assert(string_views(strs@) =~= b.push(sorted@[k as int]@));
        assert(views(sorted@).subrange(0, k + 1) =~= views(sorted@).subrange(0, k as int).push(sorted@[k as int]@));
        k = k + 1;
    }
    assert(views(sorted@).subrange(0, sorted@.len() as int) =~= views(sorted@));
    join_texts(&strs, "\n")
}

/// The `.gitignore` after recording an entry in it, or `None` when a line
/// already names it.
pub open spec fn ignore_update(cur: Seq<char>, entry: Seq<char>) -> Option<Seq<char>> {
    if exists|k: int| 0 <= k < lines(cur).len() && trim(#[trigger] lines(cur)[k]) == entry {
        None
    } else {
        Some(cur + (if cur.len() > 0 && cur.last() != '\n' { "\n"@ } else { Seq::empty() })
            + "\n# The local environment fingerprint: this machine's state, never shared.\n"@ + entry + "\n"@)
    }
}

pub fn gitignore_update(cur: &str, entry: &str) -> (r: Option<String>)
    ensures
        match ignore_update(cur@, entry@) {
            Some(t) => r is Some && r->0@ == t,
            None => r is None,
        },
{
    let ls = lines_exec(&chars_of(cur));
    let e = chars_of(entry);
    let mut i: usize = 0;
    while i < ls.len()
        invariant
            i <= ls@.len(),
            views(ls@) == lines(cur@),
            e@ == entry@,
            forall|k: int| 0 <= k < i ==> trim(#[trigger] lines(cur@)[k]) != entry@,
        decreases ls.len() - i,
    {
        assert(views(ls@)[i as int] == ls@[i as int]@);
        if eq_chars(&trim_exec(&ls[i]), &e) {
            assert(trim(lines(cur@)[i as int]) == entry@);
            return None;
        }
        i = i + 1;
    }
    let mut next = String::from_str(cur);
    let c = chars_of(cur);
    let ghost base = next@;
    if c.len() > 0 && c[c.len() - 1] != '\n' {
        next.append("\n");
    } else {
        assert(next@ =~= base + Seq::<char>::empty());
    }
    next.append("\n# The local environment fingerprint: this machine's state, never shared.\n");
    next.append(entry);
    next.append("\n");
    Some(next)
}

/// `env --check <dir>`: the directory, when `--check` was given with one.
pub open spec fn env_args(args: Seq<Seq<char>>) -> Option<Seq<char>> {
    let check = exists|k: int| 0 <= k < args.len() && args[k] == "--check"@;
    let pos = args.filter(|a: Seq<char>| a != "--check"@);
    if check && pos.len() > 0 { Some(pos[0]) } else { None }
}

pub fn parse_env_args(args: &Vec<String>) -> (r: Option<String>)
    ensures
        match env_args(string_views(args@)) {
            Some(d) => r is Some && r->0@ == d,
            None => r is None,
        },
{
    let ghost av = string_views(args@);
    let flag = chars_of("--check");
    let mut check = false;
    let mut first: Option<String> = None;
    let mut i: usize = 0;
    proof {
        reveal(Seq::filter);
        assert(av.subrange(0, 0) =~= Seq::<Seq<char>>::empty());
    }
    while i < args.len()
        invariant
            i <= args@.len(),
            av == string_views(args@),
            flag@ == "--check"@,
            check == exists|k: int| 0 <= k < i && av[k] == "--check"@,
            ({
                let pos = av.subrange(0, i as int).filter(|a: Seq<char>| a != "--check"@);
                match first {
                    Some(f) => pos.len() > 0 && f@ == pos[0],
                    None => pos.len() == 0,
                }
            }),
        decreases args.len() - i,
    {
        let ghost sub = av.subrange(0, i + 1);
        assert(sub.drop_last() =~= av.subrange(0, i as int));
        assert(sub.last() == args@[i as int]@);
        assert(av[i as int] == args@[i as int]@);
        proof {
            reveal(Seq::filter);
            av.subrange(0, i as int).lemma_filter_len(|a: Seq<char>| a != "--check"@);
        }
        if eq_chars(&chars_of(args[i].as_str()), &flag) {
            check = true;
        } else if first.is_none() {
            first = Some(args[i].clone());
            proof {
                let pos0 = av.subrange(0, i as int).filter(|a: Seq<char>| a != "--check"@);
                assert(pos0.len() == 0);
                assert(sub.filter(|a: Seq<char>| a != "--check"@) =~= pos0.push(av[i as int]));
            }
        }
        i = i + 1;
    }
    assert(av.subrange(0, av.len() as int) =~= av);
    if check { first } else { None }
}

// ---------------------------------------------------------------------------
// What reading gives back of writing.
// ---------------------------------------------------------------------------

/// A dimension the stanza format carries: a kind without a line feed, and a
/// value, when readable, that is not empty, holds no line feed and has no
/// whitespace at its ends.
pub open spec fn dim_ok(d: DimView) -> bool {
    &&& !d.kind.contains('\n')
    &&& match d.value {
        Some(v) => v.len() > 0 && !v.contains('\n') && trim(v) == v,
        None => true,
    }
}

proof fn lemma_no_newline_concat(a: Seq<char>, b: Seq<char>)
    requires
        !a.contains('\n'),
        !b.contains('\n'),
    ensures
        !(a + b).contains('\n'),
{
    if (a + b).contains('\n') {
        let k = choose|k: int| 0 <= k < (a + b).len() && (a + b)[k] == '\n';
        if k < a.len() {
            assert(a[k] == '\n');
        } else {
            assert(b[k - a.len()] == '\n');
        }
    }
}

proof fn lemma_stanza_lines(d: DimView)
    requires
        dim_ok(d),
    ensures
        stanza(d).len() > 0,
        stanza(d).last() == '\n',
        lines(stanza(d)) == seq![
            Seq::<char>::empty(),
            "[envhash \""@ + d.kind + "\"]"@,
            match d.value {
                Some(v) => "    value = "@ + v,
                None => "    unreadable = true"@,
            },
        ],
{
    reveal_strlit("\n[envhash \"");
    reveal_strlit("[envhash \"");
    reveal_strlit("\"]\n");
    reveal_strlit("\"]");
    reveal_strlit("    value = ");
    reveal_strlit("\n");
    reveal_strlit("    unreadable = true\n");
    reveal_strlit("    unreadable = true");
    let hdr = "[envhash \""@ + d.kind + "\"]"@;
    let vl = match d.value {
        Some(v) => "    value = "@ + v,
        None => "    unreadable = true"@,
    };
    assert(!"[envhash \""@.contains('\n'));
    assert(!"\"]"@.contains('\n'));
    lemma_no_newline_concat("[envhash \""@, d.kind);
    lemma_no_newline_concat("[envhash \""@ + d.kind, "\"]"@);
    match d.value {
        Some(v) => {
            assert(!"    value = "@.contains('\n'));
            lemma_no_newline_concat("    value = "@, v);
        },
        None => {
            assert(!"    unreadable = true"@.contains('\n'));
        },
    }
    assert(stanza(d) =~= seq!['\n'] + (hdr.push('\n') + vl.push('\n')));
    lemma_lines_one(Seq::<char>::empty());
    assert(Seq::<char>::empty().push('\n') =~= seq!['\n']);
    lemma_lines_one(hdr);
    lemma_lines_one(vl);
    lemma_lines_concat(hdr.push('\n'), vl.push('\n'));
    lemma_lines_concat(seq!['\n'], hdr.push('\n') + vl.push('\n'));
    assert(strip_cr(Seq::<char>::empty()) =~= Seq::<char>::empty());
    assert(strip_cr(hdr) == hdr);
    assert(strip_cr(vl) == vl) by {
        match d.value {
            Some(v) => {
                lemma_trimmed_ends(v);
                assert(vl.last() == v.last());
            },
            None => {},
        }
    }
    assert(lines(stanza(d)) =~= seq![Seq::<char>::empty(), hdr, vl]);
}

proof fn lemma_recorded_step(ls: Seq<Seq<char>>, x: Seq<char>)
    ensures
        recorded_dims(ls.push(x)) == ({
            let out = recorded_dims(ls);
            let t = trim(x);
            if t.len() == 0 || t[0] == '#' {
                out
            } else {
                match header_kind(t) {
                    Some(k) => out.push(DimView { kind: k, value: None }),
                    None => if starts_with(t, "value = "@) && out.len() > 0 {
                        out.update(out.len() - 1, DimView { kind: out.last().kind, value: Some(trim(t.subrange(8, t.len() as int))) })
                    } else {
                        out
                    },
                }
            }
        }),
{
    assert(ls.push(x).drop_last() =~= ls);
}

proof fn lemma_header_step(ls: Seq<Seq<char>>, k: Seq<char>)
    ensures
        recorded_dims(ls.push(Seq::<char>::empty()).push("[envhash \""@ + k + "\"]"@)) == recorded_dims(ls).push(
            DimView { kind: k, value: None },
        ),
{
    reveal_strlit("[envhash \"");
    reveal_strlit("\"]");
    let e = Seq::<char>::empty();
    let hdr = "[envhash \""@ + k + "\"]"@;
    lemma_recorded_step(ls, e);
    assert(trim(e) =~= e);
    lemma_recorded_step(ls.push(e), hdr);
    assert(trim(hdr) == hdr) by {
        lemma_trim_noop(hdr);
    }
    assert(hdr[0] == '[');
    assert(header_kind(hdr) == Some(k)) by {
        assert(hdr.subrange(0, 10) =~= "[envhash \""@);
        let rest = hdr.subrange(10, hdr.len() as int);
        assert(rest =~= k + "\"]"@);
        assert(rest.subrange(rest.len() - 2, rest.len() as int) =~= "\"]"@);
        assert(rest.subrange(0, rest.len() - 2) =~= k);
    }
}

proof fn lemma_value_step(ls: Seq<Seq<char>>, v: Seq<char>)
    requires
        recorded_dims(ls).len() > 0,
        v.len() > 0,
        trim(v) == v,
    ensures
        recorded_dims(ls.push("    value = "@ + v)) == recorded_dims(ls).update(
            recorded_dims(ls).len() - 1,
            DimView { kind: recorded_dims(ls).last().kind, value: Some(v) },
        ),
{
    reveal_strlit("    value = ");
    reveal_strlit("value = ");
    reveal_strlit("[envhash \"");
    let vl = "    value = "@ + v;
    lemma_recorded_step(ls, vl);
    lemma_trimmed_ends(v);
    let t = "value = "@ + v;
    assert(vl =~= seq![' ', ' ', ' ', ' '] + t);
    lemma_trim_after_ws(seq![' ', ' ', ' ', ' '], t);
    assert(t[0] == 'v');
    assert(header_kind(t) is None) by {
        if starts_with(t, "[envhash \""@) {
            assert(t.subrange(0, 10)[0] == "[envhash \""@[0]);
        }
    }
    assert(starts_with(t, "value = "@)) by {
        assert(t.subrange(0, 8) =~= "value = "@);
    }
    assert(t.subrange(8, t.len() as int) =~= v);
}

proof fn lemma_unreadable_step(ls: Seq<Seq<char>>)
    ensures
        recorded_dims(ls.push("    unreadable = true"@)) == recorded_dims(ls),
{
    reveal_strlit("    unreadable = true");
    reveal_strlit("unreadable = true");
    reveal_strlit("value = ");
    reveal_strlit("[envhash \"");
    let vl = "    unreadable = true"@;
    lemma_recorded_step(ls, vl);
    let t = "unreadable = true"@;
    assert(vl =~= seq![' ', ' ', ' ', ' '] + t);
    lemma_trim_after_ws(seq![' ', ' ', ' ', ' '], t);
    assert(header_kind(t) is None) by {
        if starts_with(t, "[envhash \""@) {
            assert(t.subrange(0, 10)[0] == "[envhash \""@[0]);
        }
    }
    assert(!starts_with(t, "value = "@)) by {
        if starts_with(t, "value = "@) {
            assert(t.subrange(0, 8)[0] == "value = "@[0]);
        }
    }
}

proof fn lemma_stanza_read(ls: Seq<Seq<char>>, d: DimView)
    requires
        dim_ok(d),
    ensures
        recorded_dims(ls + lines(stanza(d))) == recorded_dims(ls).push(d),
{
    lemma_stanza_lines(d);
    let hdr = "[envhash \""@ + d.kind + "\"]"@;
    let vl = match d.value {
        Some(v) => "    value = "@ + v,
        None => "    unreadable = true"@,
    };
    let e = Seq::<char>::empty();
    assert(ls + lines(stanza(d)) =~= ls.push(e).push(hdr).push(vl));
    lemma_header_step(ls, d.kind);
    let out1 = recorded_dims(ls).push(DimView { kind: d.kind, value: None });
    match d.value {
        Some(v) => {
            lemma_value_step(ls.push(e).push(hdr), v);
            assert(out1.update(out1.len() - 1, DimView { kind: out1.last().kind, value: Some(v) }) =~= recorded_dims(ls).push(d));
        },
        None => {
            lemma_unreadable_step(ls.push(e).push(hdr));
            assert(out1 =~= recorded_dims(ls).push(d));
        },
    }
}

/// Reading a written fingerprint gives back its dimensions, readable and
/// unreadable alike, for dimensions the stanza format carries.
pub proof fn lemma_envhash_round_trip(ds: Seq<DimView>)
    requires
        forall|i: int| 0 <= i < ds.len() ==> dim_ok(#[trigger] ds[i]),
    ensures
        recorded_dims(lines(envhash_file(ds))) == ds,
    decreases ds.len(),
{
    if ds.len() == 0 {
        reveal_strlit("# The local environment fingerprint (host-lifecycle#19): what this tree looks\n# like now, never what was done to it. Gitignored, tool-written.\n");
        reveal_strlit("# The local environment fingerprint (host-lifecycle#19): what this tree looks");
        reveal_strlit("# like now, never what was done to it. Gitignored, tool-written.");
        let h1 = "# The local environment fingerprint (host-lifecycle#19): what this tree looks"@;
        let h2 = "# like now, never what was done to it. Gitignored, tool-written."@;
        assert(envhash_file(ds) =~= h1.push('\n') + h2.push('\n'));
        assert(!h1.contains('\n')) by {
            assert forall|k: int| 0 <= k < h1.len() implies h1[k] != '\n' by {}
        }
        assert(!h2.contains('\n')) by {
            assert forall|k: int| 0 <= k < h2.len() implies h2[k] != '\n' by {}
        }
        lemma_lines_one(h1);
        lemma_lines_one(h2);
        lemma_lines_concat(h1.push('\n'), h2.push('\n'));
        assert(strip_cr(h1) == h1);
        assert(strip_cr(h2) == h2);
        let ls = seq![h1, h2];
        assert(lines(envhash_file(ds)) =~= ls);
        lemma_recorded_step(Seq::<Seq<char>>::empty(), h1);
        assert(Seq::<Seq<char>>::empty().push(h1) =~= seq![h1]);
        lemma_recorded_step(seq![h1], h2);
        assert(seq![h1].push(h2) =~= ls);
        lemma_trim_noop(h1);
        lemma_trim_noop(h2);
        assert(recorded_dims(Seq::<Seq<char>>::empty()) =~= Seq::<DimView>::empty());
        assert(recorded_dims(ls) =~= ds);
    } else {
        let init = ds.drop_last();
        assert forall|i: int| 0 <= i < init.len() implies dim_ok(#[trigger] init[i]) by {
            assert(init[i] == ds[i]);
        }
        lemma_envhash_round_trip(init);
        let d = ds.last();
        assert(dim_ok(ds[ds.len() - 1]));
        lemma_stanza_lines(d);
        let front = envhash_file(init);
        assert(envhash_file(ds) =~= front + stanza(d));
        assert(front.len() > 0 && front.last() == '\n') by {
            reveal_strlit("# The local environment fingerprint (host-lifecycle#19): what this tree looks\n# like now, never what was done to it. Gitignored, tool-written.\n");
            if init.len() > 0 {
                lemma_stanza_lines(init.last());
                assert(init[init.len() - 1] == init.last());
            }
        }
        lemma_lines_concat(front, stanza(d));
        lemma_stanza_read(lines(front), d);
        assert(init.push(d) =~= ds);
    }
}


/// Recording the fingerprint in `.gitignore` is idempotent: once the entry
/// was added, a second update finds its line and changes nothing. (An entry
/// that spans lines, or has whitespace at its ends, would never be found as
/// a line.)
pub proof fn lemma_ignore_update_idempotent(cur: Seq<char>, entry: Seq<char>)
    requires
        !entry.contains('\n'),
        trim(entry) == entry,
    ensures
        ignore_update(cur, entry) matches Some(next) ==> ignore_update(next, entry) is None,
{
    if let Some(next) = ignore_update(cur, entry) {
        let c = "\n# The local environment fingerprint: this machine's state, never shared.\n"@;
        reveal_strlit("\n# The local environment fingerprint: this machine's state, never shared.\n");
        reveal_strlit("\n");
        let sep: Seq<char> = if cur.len() > 0 && cur.last() != '\n' { "\n"@ } else { Seq::empty() };
        let p = cur + sep + c;
        assert(p.len() > 0 && p.last() == '\n');
        assert(next =~= p + entry.push('\n'));
        crate::text::lemma_lines_concat(p, entry.push('\n'));
        crate::text::lemma_lines_one(entry);
        if entry.len() > 0 && entry.last() == '\r' {
            crate::text::lemma_trimmed_ends(entry);
        }
        assert(crate::text::strip_cr(entry) == entry);
        let ls = lines(next);
        assert(ls[ls.len() - 1] == entry);
        assert(trim(ls[ls.len() - 1]) == entry);
    }
}

} // verus!
