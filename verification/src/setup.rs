//! The completeness gate: which local artifacts the recipe requires of this
//! host, which of them are missing, and the verdict. The requirement set is
//! derived from the recipe; the tree only answers present-or-absent, and the
//! program hands those answers in as a probe.

use vstd::prelude::*;
use vstd::string::*;

use crate::recipe::{off_platform, off_platform_exec, opt_pair, opt_text, worktree_label, worktree_rel, Software, WorktreeLine};
use crate::text::{chars_of, eq_chars, string_views, views};

verus! {

/// The classes of local artifact a bootstrapped tree carries.
#[derive(Debug, Clone, Copy, PartialEq, Eq, Structural)]
pub enum RequirementKind {
    SubmodulesInitialized,
    WorktreeMaterialized,
    GateArtifactRecorded,
    HostHookInstalled,
    WorktreeHookInstalled,
    HookBinaryCurrent,
    BuildArtifactPresent,
    RederiverOnPath,
    SkillSourceReadable,
    SkillLinked,
}

/// The words a report line uses for a kind of requirement.
pub open spec fn kind_label(k: RequirementKind) -> Seq<char> {
    match k {
        RequirementKind::SubmodulesInitialized => "submodules initialized"@,
        RequirementKind::WorktreeMaterialized => "worktree materialized"@,
        RequirementKind::GateArtifactRecorded => "gate provider records its artifact"@,
        RequirementKind::HostHookInstalled => "host repository gated"@,
        RequirementKind::WorktreeHookInstalled => "worktree gated"@,
        RequirementKind::HookBinaryCurrent => "installed gate matches the built one"@,
        RequirementKind::BuildArtifactPresent => "build artifact present"@,
        RequirementKind::RederiverOnPath => "re-deriver runnable"@,
        RequirementKind::SkillSourceReadable => "skill source readable"@,
        RequirementKind::SkillLinked => "skill linked"@,
    }
}

/// What to run to install the missing thing, naming this tree's root.
pub open spec fn remedy_text(k: RequirementKind, root: Seq<char>, rederiver: Option<Seq<char>>) -> Seq<char> {
    match k {
        RequirementKind::SubmodulesInitialized => "git -C "@ + root + " submodule update --init"@,
        RequirementKind::WorktreeMaterialized => "host-lifecycle software --materialize "@ + root,
        RequirementKind::GateArtifactRecorded =>
            "record `artifact = <path> <sha256>` for the component that declares `hooks`; the commit gate installs that binary"@,
        RequirementKind::HostHookInstalled | RequirementKind::WorktreeHookInstalled
        | RequirementKind::HookBinaryCurrent => "host-lifecycle software --install-hooks "@ + root,
        RequirementKind::BuildArtifactPresent =>
            "build the component in its recorded toolchain: host-lifecycle software --verify-build "@ + root,
        RequirementKind::RederiverOnPath => match rederiver {
            Some(w) => "cargo install --path "@ + w,
            None => "cargo install --git https://github.com/connollydavid/host-prove"@,
        },
        RequirementKind::SkillSourceReadable => "host-lifecycle software --materialize "@ + root,
        RequirementKind::SkillLinked => "host-lifecycle bootstrap "@ + root,
    }
}

fn text_then(a: &str, b: &str) -> (r: String)
    ensures
        r@ == a@ + b@,
{
    let mut s = String::from_str(a);
    s.append(b);
    s
}

impl RequirementKind {
    pub fn label(&self) -> (r: &'static str)
        ensures
            r@ == kind_label(*self),
    {
        match self {
            RequirementKind::SubmodulesInitialized => "submodules initialized",
            RequirementKind::WorktreeMaterialized => "worktree materialized",
            RequirementKind::GateArtifactRecorded => "gate provider records its artifact",
            RequirementKind::HostHookInstalled => "host repository gated",
            RequirementKind::WorktreeHookInstalled => "worktree gated",
            RequirementKind::HookBinaryCurrent => "installed gate matches the built one",
            RequirementKind::BuildArtifactPresent => "build artifact present",
            RequirementKind::RederiverOnPath => "re-deriver runnable",
            RequirementKind::SkillSourceReadable => "skill source readable",
            RequirementKind::SkillLinked => "skill linked",
        }
    }

    /// What to run to install the missing thing, against this tree: the root
    /// is written in, never left as a placeholder.
    pub fn remedy(&self, root: &str, rederiver: Option<&str>) -> (r: String)
        ensures
            r@ == remedy_text(
                *self,
                root@,
                match rederiver {
                    Some(w) => Some(w@),
                    None => None,
                },
            ),
    {
        match self {
            RequirementKind::SubmodulesInitialized => {
                let mut s = text_then("git -C ", root);
                s.append(" submodule update --init");
                s
            },
            RequirementKind::WorktreeMaterialized => text_then("host-lifecycle software --materialize ", root),
            RequirementKind::GateArtifactRecorded => String::from_str(
                "record `artifact = <path> <sha256>` for the component that declares `hooks`; the commit gate installs that binary",
            ),
            RequirementKind::HostHookInstalled | RequirementKind::WorktreeHookInstalled
            | RequirementKind::HookBinaryCurrent => text_then("host-lifecycle software --install-hooks ", root),
            RequirementKind::BuildArtifactPresent => text_then(
                "build the component in its recorded toolchain: host-lifecycle software --verify-build ",
                root,
            ),
            RequirementKind::RederiverOnPath => match rederiver {
                Some(w) => text_then("cargo install --path ", w),
                None => String::from_str("cargo install --git https://github.com/connollydavid/host-prove"),
            },
            RequirementKind::SkillSourceReadable => text_then("host-lifecycle software --materialize ", root),
            RequirementKind::SkillLinked => text_then("host-lifecycle bootstrap ", root),
        }
    }
}

/// One required local artifact, as the recipe implies it for this host.
#[derive(Debug, Clone)]
pub struct Requirement {
    pub kind: RequirementKind,
    /// What the requirement is about: a component, a worktree path, a skill name.
    pub target: String,
    pub required: bool,
    pub present: bool,
    /// Why this host does not carry the requirement, printed on the `n-a` line.
    pub note: String,
}

pub struct ReqView {
    pub kind: RequirementKind,
    pub target: Seq<char>,
    pub required: bool,
    pub present: bool,
    pub note: Seq<char>,
}

impl View for Requirement {
    type V = ReqView;

    open spec fn view(&self) -> ReqView {
        ReqView {
            kind: self.kind,
            target: self.target@,
            required: self.required,
            present: self.present,
            note: self.note@,
        }
    }
}

pub open spec fn req_views(v: Seq<Requirement>) -> Seq<ReqView> {
    v.map_values(|r: Requirement| r@)
}

/// A gap: required here, and not there.
pub open spec fn gap(r: ReqView) -> bool {
    r.required && !r.present
}

impl Requirement {
    /// A gap: required here, and not there. Nothing else is a gap: a value
    /// that moved is drift, and drift is another concern's question.
    pub fn is_gap(&self) -> (b: bool)
        ensures
            b == gap(self@),
    {
        self.required && !self.present
    }
}

/// A requirement this host carries, with whether it is met.
pub open spec fn needed(kind: RequirementKind, target: Seq<char>, present: bool) -> ReqView {
    ReqView { kind, target, required: true, present, note: Seq::empty() }
}

fn need(kind: RequirementKind, target: String, present: bool) -> (r: Requirement)
    ensures
        r@ == needed(kind, target@, present),
{
    Requirement { kind, target, required: true, present, note: String::new() }
}

/// Whether this host is the one the recipe expects to produce a build: an
/// entry deferring to another attest host is not this host's obligation.
pub open spec fn built_on(attest_host: Option<Seq<char>>, os: Seq<char>) -> bool {
    match attest_host {
        Some(h) => h == os,
        None => true,
    }
}

pub fn built_here(attest_host: Option<&str>, os: &str) -> (b: bool)
    ensures
        b == built_on(
            match attest_host {
                Some(h) => Some(h@),
                None => None,
            },
            os@,
        ),
{
    match attest_host {
        Some(h) => eq_chars(&chars_of(h), &chars_of(os)),
        None => true,
    }
}

/// The explicit worktree lines that apply on this platform, as branches.
pub open spec fn applicable_lines(lines: Seq<WorktreeLine>, os: Seq<char>) -> Seq<Seq<char>>
    decreases lines.len(),
{
    if lines.len() == 0 {
        Seq::empty()
    } else {
        let w = lines.last();
        applicable_lines(lines.drop_last(), os) + if off_platform(opt_text(w.host), os) {
            Seq::empty()
        } else {
            seq![w.branch@]
        }
    }
}

/// Every worktree the recipe declares for a component, by its repo-relative
/// path: the canonical branch, each bare `worktrees =` branch, and each
/// explicit line that applies to this platform.
pub open spec fn declared_labels(s: Software, os: Seq<char>) -> Seq<Seq<char>> {
    (seq![s.branch@] + string_views(s.worktrees@) + applicable_lines(s.lines@, os)).map_values(
        |b: Seq<char>| worktree_rel(s.name@, b),
    )
}

fn push_label(out: &mut Vec<String>, name: &str, branch: &str)
    ensures
        string_views(final(out)@) == string_views(old(out)@).push(worktree_rel(name@, branch@)),
{
    let ghost b = string_views(out@);
    let l = worktree_label(name, branch);
    out.push(l);
    assert(string_views(out@) =~= b.push(worktree_rel(name@, branch@)));
}

/// Every worktree the recipe declares for a component, as repo-relative
/// paths (which are also the labels the report prints). Enumerated from the
/// recipe, so deleting a materialized worktree removes the artifact, never
/// the question.
pub fn declared_worktrees(s: &Software, os: &str) -> (out: Vec<String>)
    ensures
        string_views(out@) == declared_labels(*s, os@),
{
    let ghost name = s.name@;
    let ghost head = seq![s.branch@] + string_views(s.worktrees@);
    let mut out: Vec<String> = Vec::new();
    push_label(&mut out, s.name.as_str(), s.branch.as_str());
    let mut j: usize = 0;
    while j < s.worktrees.len()
        invariant
            j <= s.worktrees@.len(),
            name == s.name@,
            head == seq![s.branch@] + string_views(s.worktrees@),
            string_views(out@) == head.subrange(0, 1 + j as int).map_values(|b: Seq<char>| worktree_rel(name, b)),
        decreases s.worktrees.len() - j,
    {
        push_label(&mut out, s.name.as_str(), s.worktrees[j].as_str());
        assert(head[1 + j as int] == s.worktrees@[j as int]@);
        assert(string_views(out@) =~= head.subrange(0, 2 + j as int).map_values(|b: Seq<char>| worktree_rel(name, b)));
        j = j + 1;
    }
    assert(head.subrange(0, head.len() as int) =~= head);
    let mut k: usize = 0;
    while k < s.lines.len()
        invariant
            k <= s.lines@.len(),
            name == s.name@,
            head == seq![s.branch@] + string_views(s.worktrees@),
            string_views(out@) == (head + applicable_lines(s.lines@.subrange(0, k as int), os@)).map_values(|b: Seq<char>| worktree_rel(name, b)),
        decreases s.lines.len() - k,
    {
        let ghost before = string_views(out@);
        let ghost sub = s.lines@.subrange(0, k + 1);
        assert(sub.drop_last() =~= s.lines@.subrange(0, k as int));
        assert(sub.last() == s.lines@[k as int]);
        if !off_platform_exec(&s.lines[k].host, os) {
            push_label(&mut out, s.name.as_str(), s.lines[k].branch.as_str());
            assert(applicable_lines(sub, os@) =~= applicable_lines(s.lines@.subrange(0, k as int), os@).push(s.lines@[k as int].branch@));
            assert(string_views(out@) =~= (head + applicable_lines(sub, os@)).map_values(|b: Seq<char>| worktree_rel(name, b)));
        } else {
            assert(applicable_lines(sub, os@) =~= applicable_lines(s.lines@.subrange(0, k as int), os@));
        }
        k = k + 1;
    }
    assert(s.lines@.subrange(0, s.lines@.len() as int) =~= s.lines@);
    out
}


/// What the program found on disk, keyed by the paths the recipe names. The
/// library decides which questions the recipe asks; the program answers them.
pub struct SetupProbe {
    /// Each declared submodule path, with whether it is initialized.
    pub submodules: Vec<(String, bool)>,
    /// The declared worktree paths that are real git worktrees.
    pub live_worktrees: Vec<String>,
    /// The paths that are regular files.
    pub files: Vec<String>,
    /// The hooks directories whose two hooks are present and executable.
    pub gated_dirs: Vec<String>,
    /// The host repository's hooks directory, where it resolves.
    pub host_hooks: Option<String>,
    /// Each declared worktree path with its hooks directory, where it resolves.
    pub worktree_hooks: Vec<(String, String)>,
    /// (installed binary, built binary) pairs whose digests differ.
    pub stale_binaries: Vec<(String, String)>,
    /// Each skill the sources offer, with whether its link resolves to its source.
    pub skills: Vec<(String, bool)>,
    /// The skill sources that could not be read.
    pub unreadable_sources: Vec<String>,
    /// Whether the shared re-deriver runs, when a rung is declared at all.
    pub rederiver: Option<bool>,
}

pub open spec fn pair_views(v: Seq<(String, String)>) -> Seq<(Seq<char>, Seq<char>)> {
    v.map_values(|x: (String, String)| (x.0@, x.1@))
}

/// The first value paired with `k`.
pub open spec fn lookup(v: Seq<(Seq<char>, Seq<char>)>, k: Seq<char>) -> Option<Seq<char>>
    decreases v.len(),
{
    if v.len() == 0 {
        None
    } else if v[0].0 == k {
        Some(v[0].1)
    } else {
        lookup(v.subrange(1, v.len() as int), k)
    }
}

pub(crate) fn is_listed(v: &Vec<String>, k: &str) -> (b: bool)
    ensures
        b == string_views(v@).contains(k@),
{
    let kc = chars_of(k);
    let mut i: usize = 0;
    while i < v.len()
        invariant
            i <= v@.len(),
            kc@ == k@,
            forall|q: int| 0 <= q < i ==> (#[trigger] v@[q])@ != k@,
        decreases v.len() - i,
    {
        if eq_chars(&chars_of(v[i].as_str()), &kc) {
            assert(string_views(v@)[i as int] == k@);
            return true;
        }
        i = i + 1;
    }
    assert forall|q: int| 0 <= q < string_views(v@).len() implies string_views(v@)[q] != k@ by {
        assert(string_views(v@)[q] == v@[q]@);
    }
    false
}

fn pair_listed(v: &Vec<(String, String)>, a: &str, b: &str) -> (r: bool)
    ensures
        r == pair_views(v@).contains((a@, b@)),
{
    let ac = chars_of(a);
    let bc = chars_of(b);
    let mut i: usize = 0;
    while i < v.len()
        invariant
            i <= v@.len(),
            ac@ == a@,
            bc@ == b@,
            forall|q: int| 0 <= q < i ==> !((#[trigger] v@[q]).0@ == a@ && v@[q].1@ == b@),
        decreases v.len() - i,
    {
        if eq_chars(&chars_of(v[i].0.as_str()), &ac) && eq_chars(&chars_of(v[i].1.as_str()), &bc) {
            assert(pair_views(v@)[i as int] == (a@, b@));
            return true;
        }
        i = i + 1;
    }
    assert forall|q: int| 0 <= q < pair_views(v@).len() implies pair_views(v@)[q] != (a@, b@) by {
        assert(pair_views(v@)[q] == (v@[q].0@, v@[q].1@));
    }
    false
}

pub(crate) fn lookup_exec(v: &Vec<(String, String)>, k: &str) -> (r: Option<String>)
    ensures
        opt_text(r) == lookup(pair_views(v@), k@),
{
    let kc = chars_of(k);
    let mut i: usize = 0;
    assert(pair_views(v@).subrange(0, pair_views(v@).len() as int) =~= pair_views(v@));
    while i < v.len()
        invariant
            i <= v@.len(),
            kc@ == k@,
            lookup(pair_views(v@), k@) == lookup(pair_views(v@).subrange(i as int, v@.len() as int), k@),
        decreases v.len() - i,
    {
        let ghost rest = pair_views(v@).subrange(i as int, v@.len() as int);
        assert(rest[0] == (v@[i as int].0@, v@[i as int].1@));
        assert(rest.subrange(1, rest.len() as int) =~= pair_views(v@).subrange(i + 1, v@.len() as int));
        if eq_chars(&chars_of(v[i].0.as_str()), &kc) {
            return Some(v[i].1.clone());
        }
        i = i + 1;
    }
    None
}

fn push_req(out: &mut Vec<Requirement>, r: Requirement)
    ensures
        req_views(final(out)@) == req_views(old(out)@).push(r@),
{
    let ghost b = req_views(out@);
    let ghost rv = r@;
    out.push(r);
    assert(req_views(out@) =~= b.push(rv));
}

/// The worktree requirements of one component: each declared worktree must
/// be a real git worktree.
pub open spec fn worktree_reqs(s: Software, os: Seq<char>, p: SetupProbe) -> Seq<ReqView> {
    declared_labels(s, os).map_values(
        |l: Seq<char>| needed(RequirementKind::WorktreeMaterialized, l, string_views(p.live_worktrees@).contains(l)),
    )
}

pub open spec fn no_consumer_note() -> Seq<char> {
    "no local consumer: this artifact is attested in its toolchain, not installed here"@
}

/// The requirement that a recorded build artifact be present. It is required
/// here only when something local consumes it (the commit gate) and this is
/// the host the recipe expects to build it; the note says which condition
/// released it.
pub open spec fn art_req(
    s: Software,
    platform: Option<Seq<char>>,
    path: Seq<char>,
    attest: Option<Seq<char>>,
    os: Seq<char>,
    p: SetupProbe,
) -> ReqView {
    let consumed = s.hooks is Some;
    ReqView {
        kind: RequirementKind::BuildArtifactPresent,
        target: match platform {
            Some(pl) => s.name@ + " ["@ + pl + "]"@,
            None => s.name@,
        },
        required: consumed && built_on(attest, os),
        present: string_views(p.files@).contains(crate::text::path_join(worktree_rel(s.name@, s.branch@), path)),
        note: if !consumed {
            no_consumer_note()
        } else {
            "built on "@ + match attest {
                Some(h) => h,
                None => "another host"@,
            } + ", not here"@
        },
    }
}

pub open spec fn platform_reqs(s: Software, builds: Seq<crate::recipe::PlatformBuild>, os: Seq<char>, p: SetupProbe) -> Seq<ReqView>
    decreases builds.len(),
{
    if builds.len() == 0 {
        Seq::empty()
    } else {
        let b = builds.last();
        platform_reqs(s, builds.drop_last(), os, p) + match opt_pair(b.artifact) {
            Some(a) => seq![art_req(s, Some(b.platform@), a.0, opt_text(b.attest_host), os, p)],
            None => Seq::empty(),
        }
    }
}

/// The artifact requirements of one component: one per recorded artifact.
pub open spec fn build_reqs(s: Software, os: Seq<char>, p: SetupProbe) -> Seq<ReqView> {
    if s.builds@.len() == 0 {
        match opt_pair(s.artifact) {
            Some(a) => seq![art_req(s, None, a.0, None, os, p)],
            None => Seq::empty(),
        }
    } else {
        platform_reqs(s, s.builds@, os, p)
    }
}

pub open spec fn component_part(recipe: Seq<Software>, os: Seq<char>, p: SetupProbe) -> Seq<ReqView>
    decreases recipe.len(),
{
    if recipe.len() == 0 {
        Seq::empty()
    } else {
        component_part(recipe.drop_last(), os, p) + worktree_reqs(recipe.last(), os, p) + build_reqs(
            recipe.last(),
            os,
            p,
        )
    }
}


fn add_worktree_reqs(out: &mut Vec<Requirement>, s: &Software, os: &str, p: &SetupProbe)
    ensures
        req_views(final(out)@) == req_views(old(out)@) + worktree_reqs(*s, os@, *p),
{
    let labels = declared_worktrees(s, os);
    let ghost start = req_views(out@);
    let ghost ls = declared_labels(*s, os@);
    let ghost live = string_views(p.live_worktrees@);
    let mut i: usize = 0;
    while i < labels.len()
        invariant
            i <= labels@.len(),
            string_views(labels@) == ls,
            ls == declared_labels(*s, os@),
            live == string_views(p.live_worktrees@),
            req_views(out@) == start + ls.subrange(0, i as int).map_values(
                |l: Seq<char>| needed(RequirementKind::WorktreeMaterialized, l, live.contains(l)),
            ),
        decreases labels.len() - i,
    {
        let present = is_listed(&p.live_worktrees, labels[i].as_str());
        assert(ls[i as int] == labels@[i as int]@);
        push_req(out, need(RequirementKind::WorktreeMaterialized, labels[i].clone(), present));
        assert(req_views(out@) =~= start + ls.subrange(0, i + 1).map_values(
            |l: Seq<char>| needed(RequirementKind::WorktreeMaterialized, l, live.contains(l)),
        ));
        i = i + 1;
    }
    assert(ls.subrange(0, ls.len() as int) =~= ls);
}

fn art_req_exec(
    s: &Software,
    platform: Option<&str>,
    path: &str,
    attest: Option<&str>,
    os: &str,
    p: &SetupProbe,
) -> (r: Requirement)
    ensures
        r@ == art_req(
            *s,
            match platform {
                Some(x) => Some(x@),
                None => None,
            },
            path@,
            match attest {
                Some(x) => Some(x@),
                None => None,
            },
            os@,
            *p,
        ),
{
    let consumed = s.hooks.is_some();
    let target = match platform {
        Some(pl) => {
            let mut t = s.name.clone();
            t.append(" [");
            t.append(pl);
            t.append("]");
            t
        },
        None => s.name.clone(),
    };
    let wt = worktree_label(s.name.as_str(), s.branch.as_str());
    let at = crate::text::join_path(wt.as_str(), path);
    let present = is_listed(&p.files, at.as_str());
    let note = if !consumed {
        String::from_str("no local consumer: this artifact is attested in its toolchain, not installed here")
    } else {
        let mut n = String::from_str("built on ");
        match attest {
            Some(h) => n.append(h),
            None => n.append("another host"),
        }
        n.append(", not here");
        n
    };
    Requirement {
        kind: RequirementKind::BuildArtifactPresent,
        target,
        required: consumed && built_here(attest, os),
        present,
        note,
    }
}

fn add_build_reqs(out: &mut Vec<Requirement>, s: &Software, os: &str, p: &SetupProbe)
    ensures
        req_views(final(out)@) == req_views(old(out)@) + build_reqs(*s, os@, *p),
{
    let ghost start = req_views(out@);
    if s.builds.len() == 0 {
        match &s.artifact {
            Some(a) => {
                let r = art_req_exec(s, None, a.0.as_str(), None, os, p);
                push_req(out, r);
            },
            None => {
                assert(req_views(out@) =~= start + build_reqs(*s, os@, *p));
            },
        }
        return;
    }
    let mut i: usize = 0;
    assert(req_views(out@) =~= start + platform_reqs(*s, s.builds@.subrange(0, 0), os@, *p));
    while i < s.builds.len()
        invariant
            i <= s.builds@.len(),
            req_views(out@) == start + platform_reqs(*s, s.builds@.subrange(0, i as int), os@, *p),
        decreases s.builds.len() - i,
    {
        let ghost sub = s.builds@.subrange(0, i + 1);
        assert(sub.drop_last() =~= s.builds@.subrange(0, i as int));
        assert(sub.last() == s.builds@[i as int]);
        let b = &s.builds[i];
        match &b.artifact {
            Some(a) => {
                let attest: Option<&str> = match &b.attest_host {
                    Some(h) => Some(h.as_str()),
                    None => None,
                };
                let r = art_req_exec(s, Some(b.platform.as_str()), a.0.as_str(), attest, os, p);
                push_req(out, r);
                assert(req_views(out@) =~= start + platform_reqs(*s, sub, os@, *p));
            },
            None => {
                assert(req_views(out@) =~= start + platform_reqs(*s, sub, os@, *p));
            },
        }
        i = i + 1;
    }
    assert(s.builds@.subrange(0, s.builds@.len() as int) =~= s.builds@);
}


/// The first per-platform artifact this host is expected to build.
pub open spec fn first_art(builds: Seq<crate::recipe::PlatformBuild>, os: Seq<char>) -> Option<Seq<char>>
    decreases builds.len(),
{
    if builds.len() == 0 {
        None
    } else if built_on(opt_text(builds[0].attest_host), os) && opt_pair(builds[0].artifact) is Some {
        match opt_pair(builds[0].artifact) {
            Some(a) => Some(a.0),
            None => None,
        }
    } else {
        first_art(builds.subrange(1, builds.len() as int), os)
    }
}

/// The artifact path a component records for this host: the per-platform
/// entry whose attest host is this one, else the flat fields.
pub open spec fn recorded_art(s: Software, os: Seq<char>) -> Option<Seq<char>> {
    if s.builds@.len() == 0 {
        match opt_pair(s.artifact) {
            Some(a) => Some(a.0),
            None => None,
        }
    } else {
        first_art(s.builds@, os)
    }
}

fn recorded_artifact(s: &Software, os: &str) -> (r: Option<String>)
    ensures
        opt_text(r) == recorded_art(*s, os@),
{
    if s.builds.len() == 0 {
        return match &s.artifact {
            Some(a) => Some(a.0.clone()),
            None => None,
        };
    }
    let mut i: usize = 0;
    assert(s.builds@.subrange(0, s.builds@.len() as int) =~= s.builds@);
    while i < s.builds.len()
        invariant
            i <= s.builds@.len(),
            s.builds@.len() > 0,
            recorded_art(*s, os@) == first_art(s.builds@.subrange(i as int, s.builds@.len() as int), os@),
        decreases s.builds.len() - i,
    {
        let ghost rest = s.builds@.subrange(i as int, s.builds@.len() as int);
        assert(rest[0] == s.builds@[i as int]);
        assert(rest.subrange(1, rest.len() as int) =~= s.builds@.subrange(i + 1, s.builds@.len() as int));
        let b = &s.builds[i];
        let here = match &b.attest_host {
            Some(h) => built_here(Some(h.as_str()), os),
            None => built_here(None, os),
        };
        if here {
            match &b.artifact {
                Some(a) => {
                    return Some(a.0.clone());
                },
                None => {},
            }
        }
        i = i + 1;
    }
    None
}

/// Every worktree the recipe declares, over all components, in recipe order.
pub open spec fn all_labels(recipe: Seq<Software>, os: Seq<char>) -> Seq<Seq<char>>
    decreases recipe.len(),
{
    if recipe.len() == 0 {
        Seq::empty()
    } else {
        all_labels(recipe.drop_last(), os) + declared_labels(recipe.last(), os)
    }
}

fn all_worktrees(recipe: &Vec<Software>, os: &str) -> (out: Vec<String>)
    ensures
        string_views(out@) == all_labels(recipe@, os@),
{
    let mut out: Vec<String> = Vec::new();
    let mut i: usize = 0;
    assert(string_views(out@) =~= all_labels(recipe@.subrange(0, 0), os@));
    while i < recipe.len()
        invariant
            i <= recipe@.len(),
            string_views(out@) == all_labels(recipe@.subrange(0, i as int), os@),
        decreases recipe.len() - i,
    {
        let ghost sub = recipe@.subrange(0, i + 1);
        assert(sub.drop_last() =~= recipe@.subrange(0, i as int));
        let ls = declared_worktrees(&recipe[i], os);
        let ghost before = string_views(out@);
        let mut j: usize = 0;
        while j < ls.len()
            invariant
                j <= ls@.len(),
                string_views(out@) == before + string_views(ls@).subrange(0, j as int),
            decreases ls.len() - j,
        {
            let ghost b2 = string_views(out@);
            out.push(ls[j].clone());
            assert(string_views(out@) =~= b2.push(ls@[j as int]@));
            assert(string_views(out@) =~= before + string_views(ls@).subrange(0, j + 1));
            j = j + 1;
        }
        assert(string_views(ls@).subrange(0, ls@.len() as int) =~= string_views(ls@));
        i = i + 1;
    }
    assert(recipe@.subrange(0, recipe@.len() as int) =~= recipe@);
    out
}

/// A commit surface: the kind of hook requirement, the label the report
/// prints, and the hooks directory where it resolves.
pub type SurfaceView = (RequirementKind, Seq<char>, Option<Seq<char>>);

/// Every commit surface a gate provider implies: the host repository, then
/// every declared worktree of every component.
pub open spec fn surfaces(s: Software, recipe: Seq<Software>, os: Seq<char>, p: SetupProbe) -> Seq<SurfaceView> {
    seq![(RequirementKind::HostHookInstalled, s.name@, opt_text(p.host_hooks))] + all_labels(recipe, os).map_values(
        |l: Seq<char>| (RequirementKind::WorktreeHookInstalled, l, lookup(pair_views(p.worktree_hooks@), l)),
    )
}

/// Whether a hooks directory carries a live gate: both hooks executable and
/// the binary beside them.
pub open spec fn hooks_live(d: Seq<char>, bin: Seq<char>, p: SetupProbe) -> bool {
    string_views(p.gated_dirs@).contains(d) && string_views(p.files@).contains(crate::text::path_join(d, bin))
}

/// Whether the installed gate binary is the one the worktree holds now.
pub open spec fn binary_current(d: Seq<char>, bin: Seq<char>, built: Seq<char>, p: SetupProbe) -> bool {
    !pair_views(p.stale_binaries@).contains((crate::text::path_join(d, bin), built))
}

/// The hook requirements of the surfaces from the first on: an unresolvable
/// hooks directory is an ungated surface; a directory already asked about
/// (git shares one across a store's worktrees) is asked once.
pub open spec fn surface_reqs(
    ss: Seq<SurfaceView>,
    seen: Seq<Seq<char>>,
    bin: Seq<char>,
    built: Seq<char>,
    p: SetupProbe,
) -> Seq<ReqView>
    decreases ss.len(),
{
    if ss.len() == 0 {
        Seq::empty()
    } else {
        let rest = ss.subrange(1, ss.len() as int);
        match ss[0].2 {
            None => seq![needed(ss[0].0, ss[0].1, false)] + surface_reqs(rest, seen, bin, built, p),
            Some(d) => if seen.contains(d) {
                surface_reqs(rest, seen, bin, built, p)
            } else {
                seq![
                    needed(ss[0].0, ss[0].1, hooks_live(d, bin, p)),
                    needed(RequirementKind::HookBinaryCurrent, ss[0].1, binary_current(d, bin, built, p)),
                ] + surface_reqs(rest, seen.push(d), bin, built, p)
            },
        }
    }
}

/// The requirements a gate provider implies: its recorded artifact, and a
/// live, current gate on every commit surface.
pub open spec fn gate_reqs(s: Software, recipe: Seq<Software>, os: Seq<char>, p: SetupProbe) -> Seq<ReqView> {
    match recorded_art(s, os) {
        None => seq![needed(RequirementKind::GateArtifactRecorded, s.name@, false)],
        Some(path) => surface_reqs(
            surfaces(s, recipe, os, p),
            Seq::empty(),
            file_name(path),
            crate::text::path_join(worktree_rel(s.name@, s.branch@), path),
            p,
        ),
    }
}

pub open spec fn gate_part(cs: Seq<Software>, recipe: Seq<Software>, os: Seq<char>, p: SetupProbe) -> Seq<ReqView>
    decreases cs.len(),
{
    if cs.len() == 0 {
        Seq::empty()
    } else {
        gate_part(cs.drop_last(), recipe, os, p) + if cs.last().hooks is Some {
            gate_reqs(cs.last(), recipe, os, p)
        } else {
            Seq::empty()
        }
    }
}


pub open spec fn surface_views(v: Seq<(RequirementKind, String, Option<String>)>) -> Seq<SurfaceView> {
    v.map_values(|x: (RequirementKind, String, Option<String>)| (x.0, x.1@, opt_text(x.2)))
}

fn commit_surfaces(s: &Software, recipe: &Vec<Software>, os: &str, p: &SetupProbe) -> (out: Vec<(RequirementKind, String, Option<String>)>)
    ensures
        surface_views(out@) == surfaces(*s, recipe@, os@, *p),
{
    let labels = all_worktrees(recipe, os);
    let ghost ls = all_labels(recipe@, os@);
    let ghost hv = pair_views(p.worktree_hooks@);
    let mut out: Vec<(RequirementKind, String, Option<String>)> = Vec::new();
    let host = match &p.host_hooks {
        Some(h) => Some(h.clone()),
        None => None,
    };
    out.push((RequirementKind::HostHookInstalled, s.name.clone(), host));
    let ghost head = seq![(RequirementKind::HostHookInstalled, s.name@, opt_text(p.host_hooks))];
    assert(surface_views(out@) =~= head);
    let mut i: usize = 0;
    while i < labels.len()
        invariant
            i <= labels@.len(),
            string_views(labels@) == ls,
            hv == pair_views(p.worktree_hooks@),
            head == seq![(RequirementKind::HostHookInstalled, s.name@, opt_text(p.host_hooks))],
            surface_views(out@) == head + ls.subrange(0, i as int).map_values(
                |l: Seq<char>| (RequirementKind::WorktreeHookInstalled, l, lookup(hv, l)),
            ),
        decreases labels.len() - i,
    {
        let d = lookup_exec(&p.worktree_hooks, labels[i].as_str());
        let ghost before = surface_views(out@);
        assert(ls[i as int] == labels@[i as int]@);
        let item = (RequirementKind::WorktreeHookInstalled, labels[i].clone(), d);
        let ghost iv = (item.0, item.1@, opt_text(item.2));
        out.push(item);
        assert(surface_views(out@) =~= before.push(iv));
        assert(surface_views(out@) =~= head + ls.subrange(0, i + 1).map_values(
            |l: Seq<char>| (RequirementKind::WorktreeHookInstalled, l, lookup(hv, l)),
        ));
        i = i + 1;
    }
    assert(ls.subrange(0, ls.len() as int) =~= ls);
    out
}

fn add_surface_reqs(
    out: &mut Vec<Requirement>,
    ss: &Vec<(RequirementKind, String, Option<String>)>,
    bin: &str,
    built: &str,
    p: &SetupProbe,
)
    ensures
        req_views(final(out)@) == req_views(old(out)@) + surface_reqs(surface_views(ss@), Seq::empty(), bin@, built@, *p),
{
    let ghost sv = surface_views(ss@);
    let ghost start = req_views(out@);
    let mut seen: Vec<String> = Vec::new();
    let mut i: usize = 0;
    assert(sv.subrange(0, sv.len() as int) =~= sv);
    assert(string_views(seen@) =~= Seq::<Seq<char>>::empty());
    assert(req_views(out@) + surface_reqs(sv, string_views(seen@), bin@, built@, *p) =~= start + surface_reqs(
        sv,
        Seq::empty(),
        bin@,
        built@,
        *p,
    ));
    while i < ss.len()
        invariant
            i <= ss@.len(),
            sv == surface_views(ss@),
            req_views(out@) + surface_reqs(sv.subrange(i as int, sv.len() as int), string_views(seen@), bin@, built@, *p)
                == start + surface_reqs(sv, Seq::empty(), bin@, built@, *p),
        decreases ss.len() - i,
    {
        let ghost rest = sv.subrange(i as int, sv.len() as int);
        let ghost after = sv.subrange(i + 1, sv.len() as int);
        assert(rest.subrange(1, rest.len() as int) =~= after);
        assert(rest[0] == (ss@[i as int].0, ss@[i as int].1@, opt_text(ss@[i as int].2)));
        let ghost o0 = req_views(out@);
        let ghost seen0 = string_views(seen@);
        let kind = ss[i].0;
        match &ss[i].2 {
            None => {
                push_req(out, need(kind, ss[i].1.clone(), false));
                assert(req_views(out@) + surface_reqs(after, seen0, bin@, built@, *p) =~= o0 + surface_reqs(
                    rest,
                    seen0,
                    bin@,
                    built@,
                    *p,
                ));
            },
            Some(d) => {
                if is_listed(&seen, d.as_str()) {
                } else {
                    let bp = crate::text::join_path(d.as_str(), bin);
                    let live = is_listed(&p.gated_dirs, d.as_str()) && is_listed(&p.files, bp.as_str());
                    let current = !pair_listed(&p.stale_binaries, bp.as_str(), built);
                    push_req(out, need(kind, ss[i].1.clone(), live));
                    push_req(out, need(RequirementKind::HookBinaryCurrent, ss[i].1.clone(), current));
                    let ghost s0 = string_views(seen@);
                    seen.push(d.clone());
                    assert(string_views(seen@) =~= s0.push(d@));
                    assert(req_views(out@) + surface_reqs(after, string_views(seen@), bin@, built@, *p) =~= o0
                        + surface_reqs(rest, seen0, bin@, built@, *p));
                }
            },
        }
        i = i + 1;
    }
    assert(req_views(out@) =~= req_views(out@) + surface_reqs(sv.subrange(i as int, sv.len() as int), string_views(seen@), bin@, built@, *p));
}


/// The last piece of a path that is a component, as `Path::components` reads
/// it: empty pieces and `.` pieces are none.
pub open spec fn last_named(ps: Seq<Seq<char>>) -> Option<Seq<char>>
    decreases ps.len(),
{
    if ps.len() == 0 {
        None
    } else if ps.last().len() > 0 && ps.last() != "."@ {
        Some(ps.last())
    } else {
        last_named(ps.drop_last())
    }
}

/// `Path::file_name`, empty where a path has none: its last component when
/// that is a name (not `..`).
pub open spec fn file_name(path: Seq<char>) -> Seq<char> {
    match last_named(crate::text::split_on(path, '/')) {
        Some(c) => if c == ".."@ {
            Seq::empty()
        } else {
            c
        },
        None => Seq::empty(),
    }
}

fn file_name_of(path: &str) -> (r: String)
    ensures
        r@ == file_name(path@),
{
    let t = chars_of(path);
    let ps = crate::text::split_exec(&t, '/');
    let ghost pv = views(ps@);
    assert(pv == crate::text::split_on(path@, '/'));
    let dot = chars_of(".");
    let dots = chars_of("..");
    proof {
        reveal_strlit(".");
        reveal_strlit("..");
    }
    let mut i: usize = ps.len();
    assert(pv.subrange(0, pv.len() as int) =~= pv);
    while i > 0
        invariant
            i <= ps@.len(),
            pv == views(ps@),
            pv == crate::text::split_on(path@, '/'),
            dot@ == "."@,
            dots@ == ".."@,
            last_named(pv) == last_named(pv.subrange(0, i as int)),
        decreases i,
    {
        let ghost sub = pv.subrange(0, i as int);
        assert(sub.last() == pv[i - 1]);
        assert(sub.drop_last() =~= pv.subrange(0, i - 1));
        let piece = &ps[i - 1];
        assert(piece@ == pv[i - 1]);
        if piece.len() > 0 && !eq_chars(piece, &dot) {
            assert(last_named(pv) == Some(piece@));
            if eq_chars(piece, &dots) {
                return String::new();
            }
            return crate::text::string_of(piece);
        }
        i = i - 1;
    }
    String::new()
}

fn add_gate_reqs(out: &mut Vec<Requirement>, s: &Software, recipe: &Vec<Software>, os: &str, p: &SetupProbe)
    ensures
        req_views(final(out)@) == req_views(old(out)@) + gate_reqs(*s, recipe@, os@, *p),
{
    match recorded_artifact(s, os) {
        None => {
            push_req(out, need(RequirementKind::GateArtifactRecorded, s.name.clone(), false));
        },
        Some(path) => {
            let bin = file_name_of(path.as_str());
            let wt = worktree_label(s.name.as_str(), s.branch.as_str());
            let built = crate::text::join_path(wt.as_str(), path.as_str());
            let ss = commit_surfaces(s, recipe, os, p);
            add_surface_reqs(out, &ss, bin.as_str(), built.as_str(), p);
        },
    }
}

/// Each declared submodule must be initialized.
pub open spec fn submodule_part(v: Seq<(String, bool)>) -> Seq<ReqView> {
    v.map_values(|x: (String, bool)| needed(RequirementKind::SubmodulesInitialized, x.0@, x.1))
}

/// Each skill source must be readable, and each skill it offers linked.
pub open spec fn skill_part(p: SetupProbe) -> Seq<ReqView> {
    string_views(p.unreadable_sources@).map_values(
        |x: Seq<char>| needed(RequirementKind::SkillSourceReadable, x, false),
    ) + p.skills@.map_values(|x: (String, bool)| needed(RequirementKind::SkillLinked, x.0@, x.1))
}

/// Where a rung is declared, the shared re-deriver must run.
pub open spec fn rung_part(p: SetupProbe) -> Seq<ReqView> {
    match p.rederiver {
        Some(ok) => seq![needed(RequirementKind::RederiverOnPath, "the shared re-deriver"@, ok)],
        None => Seq::empty(),
    }
}

/// The requirement set the recipe implies for this host, in report order.
pub open spec fn setup_spec(recipe: Seq<Software>, os: Seq<char>, p: SetupProbe) -> Seq<ReqView> {
    submodule_part(p.submodules@) + component_part(recipe, os, p) + skill_part(p) + gate_part(recipe, recipe, os, p)
        + rung_part(p)
}

fn add_flagged(out: &mut Vec<Requirement>, kind: RequirementKind, v: &Vec<(String, bool)>)
    ensures
        req_views(final(out)@) == req_views(old(out)@) + v@.map_values(
            |x: (String, bool)| needed(kind, x.0@, x.1),
        ),
{
    let ghost start = req_views(out@);
    let mut i: usize = 0;
    while i < v.len()
        invariant
            i <= v@.len(),
            req_views(out@) == start + v@.subrange(0, i as int).map_values(|x: (String, bool)| needed(kind, x.0@, x.1)),
        decreases v.len() - i,
    {
        push_req(out, need(kind, v[i].0.clone(), v[i].1));
        assert(req_views(out@) =~= start + v@.subrange(0, i + 1).map_values(|x: (String, bool)| needed(kind, x.0@, x.1)));
        i = i + 1;
    }
    assert(v@.subrange(0, v@.len() as int) =~= v@);
}

fn add_absent(out: &mut Vec<Requirement>, kind: RequirementKind, v: &Vec<String>)
    ensures
        req_views(final(out)@) == req_views(old(out)@) + string_views(v@).map_values(
            |x: Seq<char>| needed(kind, x, false),
        ),
{
    let ghost start = req_views(out@);
    let ghost sv = string_views(v@);
    let mut i: usize = 0;
    while i < v.len()
        invariant
            i <= v@.len(),
            sv == string_views(v@),
            req_views(out@) == start + sv.subrange(0, i as int).map_values(|x: Seq<char>| needed(kind, x, false)),
        decreases v.len() - i,
    {
        assert(sv[i as int] == v@[i as int]@);
        push_req(out, need(kind, v[i].clone(), false));
        assert(req_views(out@) =~= start + sv.subrange(0, i + 1).map_values(|x: Seq<char>| needed(kind, x, false)));
        i = i + 1;
    }
    assert(sv.subrange(0, sv.len() as int) =~= sv);
}

/// Read the recipe and the probe into the requirement set this host
/// carries: submodules, each component's declared worktrees and recorded
/// artifacts, skills, every commit surface of every gate provider, and the
/// re-deriver where a rung is declared.
pub fn setup_requirements(recipe: &Vec<Software>, os: &str, p: &SetupProbe) -> (out: Vec<Requirement>)
    ensures
        req_views(out@) == setup_spec(recipe@, os@, *p),
{
    let mut out: Vec<Requirement> = Vec::new();
    add_flagged(&mut out, RequirementKind::SubmodulesInitialized, &p.submodules);
    let ghost a = req_views(out@);
    assert(a =~= submodule_part(p.submodules@));
    let mut i: usize = 0;
    assert(component_part(recipe@.subrange(0, 0), os@, *p) =~= Seq::<ReqView>::empty());
    assert(req_views(out@) =~= a + component_part(recipe@.subrange(0, 0), os@, *p));
    while i < recipe.len()
        invariant
            i <= recipe@.len(),
            req_views(out@) == a + component_part(recipe@.subrange(0, i as int), os@, *p),
        decreases recipe.len() - i,
    {
        let ghost sub = recipe@.subrange(0, i + 1);
        assert(sub.drop_last() =~= recipe@.subrange(0, i as int));
        assert(sub.last() == recipe@[i as int]);
        add_worktree_reqs(&mut out, &recipe[i], os, p);
        add_build_reqs(&mut out, &recipe[i], os, p);
        assert(req_views(out@) =~= a + component_part(sub, os@, *p));
        i = i + 1;
    }
    assert(recipe@.subrange(0, recipe@.len() as int) =~= recipe@);
    let ghost b = req_views(out@);
    add_absent(&mut out, RequirementKind::SkillSourceReadable, &p.unreadable_sources);
    add_flagged(&mut out, RequirementKind::SkillLinked, &p.skills);
    assert(req_views(out@) =~= b + skill_part(*p));
    let ghost c = req_views(out@);
    let mut j: usize = 0;
    assert(req_views(out@) =~= c + gate_part(recipe@.subrange(0, 0), recipe@, os@, *p));
    while j < recipe.len()
        invariant
            j <= recipe@.len(),
            req_views(out@) == c + gate_part(recipe@.subrange(0, j as int), recipe@, os@, *p),
        decreases recipe.len() - j,
    {
        let ghost sub = recipe@.subrange(0, j + 1);
        assert(sub.drop_last() =~= recipe@.subrange(0, j as int));
        assert(sub.last() == recipe@[j as int]);
        if recipe[j].hooks.is_some() {
            add_gate_reqs(&mut out, &recipe[j], recipe, os, p);
        }
        assert(req_views(out@) =~= c + gate_part(sub, recipe@, os@, *p));
        j = j + 1;
    }
    let ghost d = req_views(out@);
    match p.rederiver {
        Some(ok) => {
            push_req(&mut out, need(RequirementKind::RederiverOnPath, String::from_str("the shared re-deriver"), ok));
        },
        None => {},
    }
    assert(req_views(out@) =~= d + rung_part(*p));
    out
}


/// The number of gaps among requirements.
pub open spec fn gap_count(rs: Seq<ReqView>) -> nat
    decreases rs.len(),
{
    if rs.len() == 0 {
        0
    } else {
        gap_count(rs.drop_last()) + if gap(rs.last()) { 1nat } else { 0nat }
    }
}

pub proof fn lemma_gap_count(rs: Seq<ReqView>)
    ensures
        gap_count(rs) <= rs.len(),
        gap_count(rs) > 0 <==> exists|k: int| 0 <= k < rs.len() && gap(#[trigger] rs[k]),
    decreases rs.len(),
{
    if rs.len() > 0 {
        lemma_gap_count(rs.drop_last());
        if exists|k: int| 0 <= k < rs.drop_last().len() && gap(#[trigger] rs.drop_last()[k]) {
            let k = choose|k: int| 0 <= k < rs.drop_last().len() && gap(#[trigger] rs.drop_last()[k]);
            assert(rs[k] == rs.drop_last()[k]);
        }
        if exists|k: int| 0 <= k < rs.len() && gap(#[trigger] rs[k]) {
            let k = choose|k: int| 0 <= k < rs.len() && gap(#[trigger] rs[k]);
            if k < rs.len() - 1 {
                assert(rs.drop_last()[k] == rs[k]);
            }
        }
    }
}

/// The report line for one requirement: HAZARD on a gap, `n-a` with the
/// reason where this host does not carry it, `ok` otherwise.
pub open spec fn req_line(r: ReqView, root: Seq<char>, rederiver: Option<Seq<char>>) -> Seq<char> {
    if gap(r) {
        "HAZARD   "@ + r.target + " — "@ + kind_label(r.kind) + " is missing; run: "@ + remedy_text(
            r.kind,
            root,
            rederiver,
        )
    } else if !r.required {
        "n-a      "@ + r.target + " — "@ + kind_label(r.kind) + " ("@ + r.note + ")"@
    } else {
        "ok       "@ + r.target + " — "@ + kind_label(r.kind)
    }
}

/// The closing line of the report.
pub open spec fn setup_summary(gaps: nat) -> Seq<char> {
    if gaps > 0 {
        "-- setup INCOMPLETE: "@ + crate::memory::padded(gaps, 1)
            + " required local artifact(s) missing; install them and re-run"@
    } else {
        "-- setup complete: every artifact the recipe requires of this host is present"@
    }
}

/// What the completeness check prints and the status it exits with.
pub struct SetupVerdict {
    pub code: i32,
    pub lines: Vec<String>,
}

fn req_line_exec(r: &Requirement, root: &str, rederiver: Option<&str>) -> (s: String)
    ensures
        s@ == req_line(
            r@,
            root@,
            match rederiver {
                Some(w) => Some(w@),
                None => None,
            },
        ),
{
    if r.is_gap() {
        let mut s = String::from_str("HAZARD   ");
        s.append(r.target.as_str());
        s.append(" — ");
        s.append(r.kind.label());
        s.append(" is missing; run: ");
        let rem = r.kind.remedy(root, rederiver);
        s.append(rem.as_str());
        s
    } else if !r.required {
        let mut s = String::from_str("n-a      ");
        s.append(r.target.as_str());
        s.append(" — ");
        s.append(r.kind.label());
        s.append(" (");
        s.append(r.note.as_str());
        s.append(")");
        s
    } else {
        let mut s = String::from_str("ok       ");
        s.append(r.target.as_str());
        s.append(" — ");
        s.append(r.kind.label());
        s
    }
}

/// The completeness check: one line per requirement, HAZARD on every gap,
/// and the exit status:
/// `0` complete, `1` when any required artifact is missing.
pub fn verify_setup(reqs: &Vec<Requirement>, root: &str, rederiver: Option<&str>) -> (v: SetupVerdict)
    ensures
        v.code == (if gap_count(req_views(reqs@)) > 0 { 1i32 } else { 0i32 }),
        v.code == 1 <==> exists|k: int| 0 <= k < reqs@.len() && gap(#[trigger] reqs@[k]@),
        string_views(v.lines@) == req_views(reqs@).map_values(
            |r: ReqView|
                req_line(
                    r,
                    root@,
                    match rederiver {
                        Some(w) => Some(w@),
                        None => None,
                    },
                ),
        ).push(setup_summary(gap_count(req_views(reqs@)))),
{
    let ghost rv = req_views(reqs@);
    let ghost red = match rederiver {
        Some(w) => Some(w@),
        None => None,
    };
    let mut lines: Vec<String> = Vec::new();
    let mut gaps: usize = 0;
    let mut i: usize = 0;
    while i < reqs.len()
        invariant
            i <= reqs@.len(),
            rv == req_views(reqs@),
            red == match rederiver {
                Some(w) => Some(w@),
                None => None::<Seq<char>>,
            },
            gaps as nat == gap_count(rv.subrange(0, i as int)),
            gaps <= i,
            string_views(lines@) == rv.subrange(0, i as int).map_values(|r: ReqView| req_line(r, root@, red)),
        decreases reqs.len() - i,
    {
        let ghost sub = rv.subrange(0, i + 1);
        assert(sub.drop_last() =~= rv.subrange(0, i as int));
        assert(sub.last() == reqs@[i as int]@);
        let l = req_line_exec(&reqs[i], root, rederiver);
        let ghost before = string_views(lines@);
        lines.push(l);
        assert(string_views(lines@) =~= before.push(req_line(reqs@[i as int]@, root@, red)));
        assert(string_views(lines@) =~= sub.map_values(|r: ReqView| req_line(r, root@, red)));
        if reqs[i].is_gap() {
            gaps = gaps + 1;
        }
        i = i + 1;
    }
    assert(rv.subrange(0, rv.len() as int) =~= rv);
    proof {
        lemma_gap_count(rv);
        if exists|k: int| 0 <= k < reqs@.len() && gap(#[trigger] reqs@[k]@) {
            let k = choose|k: int| 0 <= k < reqs@.len() && gap(#[trigger] reqs@[k]@);
            assert(gap(rv[k]));
        }
        if exists|k: int| 0 <= k < rv.len() && gap(#[trigger] rv[k]) {
            let k = choose|k: int| 0 <= k < rv.len() && gap(#[trigger] rv[k]);
            assert(gap(reqs@[k]@));
        }
    }
    let ghost before = string_views(lines@);
    let code: i32;
    if gaps > 0 {
        let mut s = String::from_str("-- setup INCOMPLETE: ");
        let n = crate::memory::decimal_text(gaps as u64);
        s.append(n.as_str());
        s.append(" required local artifact(s) missing; install them and re-run");
        lines.push(s);
        code = 1;
    } else {
        lines.push(String::from_str("-- setup complete: every artifact the recipe requires of this host is present"));
        code = 0;
    }
    assert(string_views(lines@) =~= before.push(setup_summary(gap_count(rv))));
    SetupVerdict { code, lines }
}


proof fn lemma_component_part_has(recipe: Seq<Software>, os: Seq<char>, p: SetupProbe, k: int)
    requires
        0 <= k < recipe.len(),
    ensures
        forall|r: ReqView| worktree_reqs(recipe[k], os, p).contains(r) ==> component_part(recipe, os, p).contains(r),
    decreases recipe.len(),
{
    let c = component_part(recipe, os, p);
    if k == recipe.len() - 1 {
        let a = component_part(recipe.drop_last(), os, p);
        let w = worktree_reqs(recipe.last(), os, p);
        let b = build_reqs(recipe.last(), os, p);
        assert(c == a + w + b);
        assert forall|r: ReqView| w.contains(r) implies c.contains(r) by {
            let j = choose|j: int| 0 <= j < w.len() && w[j] == r;
            assert((a + w)[a.len() + j] == r);
            assert((a + w + b)[a.len() + j] == r);
        }
    } else {
        lemma_component_part_has(recipe.drop_last(), os, p, k);
        assert(recipe.drop_last()[k] == recipe[k]);
        let a = component_part(recipe.drop_last(), os, p);
        let w = worktree_reqs(recipe.last(), os, p);
        let b = build_reqs(recipe.last(), os, p);
        assert(c == a + w + b);
        assert forall|r: ReqView| worktree_reqs(recipe[k], os, p).contains(r) implies c.contains(r) by {
            assert(worktree_reqs(recipe.drop_last()[k], os, p).contains(r));
            assert(a.contains(r));
            let j = choose|j: int| 0 <= j < a.len() && a[j] == r;
            assert((a + w)[j] == a[j]);
            assert((a + w + b)[j] == (a + w)[j]);
            assert(c[j] == r);
        }
    }
}

/// The requirement set comes from the recipe: every worktree a component
/// declares for this platform is asked about, as present exactly when the
/// tree holds it as a real worktree. Deleting a worktree removes the
/// artifact, never the question.
pub proof fn lemma_every_declared_worktree_is_asked(recipe: Seq<Software>, os: Seq<char>, p: SetupProbe, k: int, l: Seq<char>)
    requires
        0 <= k < recipe.len(),
        declared_labels(recipe[k], os).contains(l),
    ensures
        setup_spec(recipe, os, p).contains(
            needed(RequirementKind::WorktreeMaterialized, l, string_views(p.live_worktrees@).contains(l)),
        ),
{
    let r = needed(RequirementKind::WorktreeMaterialized, l, string_views(p.live_worktrees@).contains(l));
    let ls = declared_labels(recipe[k], os);
    let w = worktree_reqs(recipe[k], os, p);
    let j = choose|j: int| 0 <= j < ls.len() && ls[j] == l;
    assert(w[j] == r);
    assert(w.contains(r));
    lemma_component_part_has(recipe, os, p, k);
    let c = component_part(recipe, os, p);
    assert(c.contains(r));
    let i = choose|i: int| 0 <= i < c.len() && c[i] == r;
    assert(0 <= i < c.len() && c[i] == r);
    let s = setup_spec(recipe, os, p);
    let sub = submodule_part(p.submodules@);
    let sc = sub + c;
    assert(sc[sub.len() + i] == r);
    let rest1 = skill_part(p);
    let rest2 = gate_part(recipe, recipe, os, p);
    let rest3 = rung_part(p);
    assert(s == sc + rest1 + rest2 + rest3);
    assert((sc + rest1)[sub.len() + i] == r);
    assert((sc + rest1 + rest2)[sub.len() + i] == r);
    assert(s[sub.len() + i] == r);
}

/// Host-role awareness: an artifact whose build the recipe defers to another
/// attest host is never a gap here, present or not.
pub proof fn lemma_other_hosts_artifact_never_gaps(
    s: Software,
    platform: Option<Seq<char>>,
    path: Seq<char>,
    host: Seq<char>,
    os: Seq<char>,
    p: SetupProbe,
)
    requires
        host != os,
    ensures
        !gap(art_req(s, platform, path, Some(host), os, p)),
{
}

/// Every gap is a missing required artifact, and the exit status is `1`
/// exactly when some requirement is a gap.
pub proof fn lemma_gaps_decide_the_status(rs: Seq<ReqView>)
    ensures
        forall|k: int| 0 <= k < rs.len() && gap(#[trigger] rs[k]) ==> rs[k].required && !rs[k].present,
        gap_count(rs) > 0 <==> exists|k: int| 0 <= k < rs.len() && gap(#[trigger] rs[k]),
{
    lemma_gap_count(rs);
}


/// Every requirement is required here except a build artifact, which a host
/// may be released from.
pub open spec fn optional_only_artifacts(rs: Seq<ReqView>) -> bool {
    forall|k: int| 0 <= k < rs.len() ==> (#[trigger] rs[k]).kind != RequirementKind::BuildArtifactPresent ==> rs[k].required
}

proof fn lemma_optional_concat(a: Seq<ReqView>, b: Seq<ReqView>)
    requires
        optional_only_artifacts(a),
        optional_only_artifacts(b),
    ensures
        optional_only_artifacts(a + b),
{
    assert forall|k: int| 0 <= k < (a + b).len() implies (#[trigger] (a + b)[k]).kind
        != RequirementKind::BuildArtifactPresent ==> (a + b)[k].required by {
        if k < a.len() {
            assert((a + b)[k] == a[k]);
        } else {
            assert((a + b)[k] == b[k - a.len()]);
        }
    }
}

proof fn lemma_platform_optional(s: Software, builds: Seq<crate::recipe::PlatformBuild>, os: Seq<char>, p: SetupProbe)
    ensures
        forall|k: int| 0 <= k < platform_reqs(s, builds, os, p).len() ==> (#[trigger] platform_reqs(s, builds, os, p)[k]).kind
            == RequirementKind::BuildArtifactPresent,
    decreases builds.len(),
{
    if builds.len() > 0 {
        lemma_platform_optional(s, builds.drop_last(), os, p);
        let a = platform_reqs(s, builds.drop_last(), os, p);
        let b = platform_reqs(s, builds, os, p);
        assert forall|k: int| 0 <= k < b.len() implies (#[trigger] b[k]).kind == RequirementKind::BuildArtifactPresent by {
            if k < a.len() {
                assert(b[k] == a[k]);
            }
        }
    }
}

proof fn lemma_component_optional(recipe: Seq<Software>, os: Seq<char>, p: SetupProbe)
    ensures
        optional_only_artifacts(component_part(recipe, os, p)),
    decreases recipe.len(),
{
    if recipe.len() > 0 {
        let s = recipe.last();
        lemma_component_optional(recipe.drop_last(), os, p);
        lemma_platform_optional(s, s.builds@, os, p);
        let w = worktree_reqs(s, os, p);
        let b = build_reqs(s, os, p);
        assert(optional_only_artifacts(w));
        assert(optional_only_artifacts(b));
        lemma_optional_concat(component_part(recipe.drop_last(), os, p), w);
        lemma_optional_concat(component_part(recipe.drop_last(), os, p) + w, b);
    }
}

proof fn lemma_surface_required(ss: Seq<SurfaceView>, seen: Seq<Seq<char>>, bin: Seq<char>, built: Seq<char>, p: SetupProbe)
    ensures
        forall|k: int| 0 <= k < surface_reqs(ss, seen, bin, built, p).len() ==> (#[trigger] surface_reqs(
            ss,
            seen,
            bin,
            built,
            p,
        )[k]).required,
    decreases ss.len(),
{
    if ss.len() > 0 {
        let rest = ss.subrange(1, ss.len() as int);
        let all = surface_reqs(ss, seen, bin, built, p);
        match ss[0].2 {
            None => {
                lemma_surface_required(rest, seen, bin, built, p);
                let t = surface_reqs(rest, seen, bin, built, p);
                assert forall|k: int| 0 <= k < all.len() implies (#[trigger] all[k]).required by {
                    if k > 0 {
                        assert(all[k] == t[k - 1]);
                    }
                }
            },
            Some(d) => {
                if seen.contains(d) {
                    lemma_surface_required(rest, seen, bin, built, p);
                } else {
                    lemma_surface_required(rest, seen.push(d), bin, built, p);
                    let t = surface_reqs(rest, seen.push(d), bin, built, p);
                    assert forall|k: int| 0 <= k < all.len() implies (#[trigger] all[k]).required by {
                        if k > 1 {
                            assert(all[k] == t[k - 2]);
                        }
                    }
                }
            },
        }
    }
}

proof fn lemma_gate_optional(cs: Seq<Software>, recipe: Seq<Software>, os: Seq<char>, p: SetupProbe)
    ensures
        optional_only_artifacts(gate_part(cs, recipe, os, p)),
    decreases cs.len(),
{
    if cs.len() > 0 {
        let s = cs.last();
        lemma_gate_optional(cs.drop_last(), recipe, os, p);
        let g = if s.hooks is Some { gate_reqs(s, recipe, os, p) } else { Seq::<ReqView>::empty() };
        if s.hooks is Some {
            match recorded_art(s, os) {
                None => {},
                Some(path) => {
                    lemma_surface_required(
                        surfaces(s, recipe, os, p),
                        Seq::empty(),
                        file_name(path),
                        crate::text::path_join(worktree_rel(s.name@, s.branch@), path),
                        p,
                    );
                },
            }
        }
        assert(optional_only_artifacts(g));
        lemma_optional_concat(gate_part(cs.drop_last(), recipe, os, p), g);
    }
}

/// Every requirement the recipe implies is required on this host except a
/// build artifact; an artifact is required exactly when the commit gate
/// consumes it and this is the host its build is attested on.
pub proof fn lemma_only_artifacts_are_optional(recipe: Seq<Software>, os: Seq<char>, p: SetupProbe)
    ensures
        optional_only_artifacts(setup_spec(recipe, os, p)),
{
    let a = submodule_part(p.submodules@);
    let b = component_part(recipe, os, p);
    let c = skill_part(p);
    let d = gate_part(recipe, recipe, os, p);
    let e = rung_part(p);
    lemma_component_optional(recipe, os, p);
    lemma_gate_optional(recipe, recipe, os, p);
    assert(optional_only_artifacts(a));
    assert forall|k: int| 0 <= k < c.len() implies (#[trigger] c[k]).required by {
        let u = string_views(p.unreadable_sources@).map_values(
            |x: Seq<char>| needed(RequirementKind::SkillSourceReadable, x, false),
        );
        if k < u.len() {
            assert(c[k] == u[k]);
        } else {
            assert(c[k] == p.skills@.map_values(|x: (String, bool)| needed(RequirementKind::SkillLinked, x.0@, x.1))[k - u.len()]);
        }
    }
    assert(optional_only_artifacts(c));
    assert(optional_only_artifacts(e));
    lemma_optional_concat(a, b);
    lemma_optional_concat(a + b, c);
    lemma_optional_concat(a + b + c, d);
    lemma_optional_concat(a + b + c + d, e);
}

} // verus!
