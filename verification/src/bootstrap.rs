//! The fresh-clone orchestrator's decisions: which steps of the setup
//! sequence the tree still needs, and what each step is about. Running the
//! steps (git, the materializer, the link writer, cargo) is the program's
//! part; it reads the tree into facts, asks the library for the next step,
//! performs it, and reads again.

use vstd::prelude::*;
use vstd::string::*;
use vstd::seq_lib::seq_to_set_distributes_over_add;

use crate::memory::{decimal_text, padded};
use crate::recipe::{opt_pair, opt_text, worktree_label, worktree_rel, Software};
use crate::text::{
    chars_of, eq_chars, joined, lines, lines_exec, second_field, second_field_exec, slice, starts_with,
    starts_with_exec, string_of, string_views, trim, trim_exec, views, text_lt, lemma_text_lt_total, lemma_text_lt_trans,
};

verus! {

/// One step of the setup sequence.
#[derive(Debug, Clone, Copy, PartialEq, Eq, Structural)]
pub enum StepKind {
    InitSubmodules,
    Materialize,
    LinkSkills,
    BuildArtifact,
    InstallHooks,
    InstallRederiver,
    VerifySetup,
}

pub open spec fn step_label(k: StepKind) -> Seq<char> {
    match k {
        StepKind::InitSubmodules => "init submodules"@,
        StepKind::Materialize => "materialize the Where room"@,
        StepKind::LinkSkills => "link the skills"@,
        StepKind::BuildArtifact => "build the gating artifact"@,
        StepKind::InstallHooks => "install the commit hooks"@,
        StepKind::InstallRederiver => "install the re-deriver on PATH"@,
        StepKind::VerifySetup => "verify the setup is complete"@,
    }
}

impl StepKind {
    pub fn label(&self) -> (r: &'static str)
        ensures
            r@ == step_label(*self),
    {
        match self {
            StepKind::InitSubmodules => "init submodules",
            StepKind::Materialize => "materialize the Where room",
            StepKind::LinkSkills => "link the skills",
            StepKind::BuildArtifact => "build the gating artifact",
            StepKind::InstallHooks => "install the commit hooks",
            StepKind::InstallRederiver => "install the re-deriver on PATH",
            StepKind::VerifySetup => "verify the setup is complete",
        }
    }
}

/// The sequence, in order: the steps are fixed; what varies is which of them
/// the live tree already satisfies. The completeness gate is always last.
pub open spec fn sequence_spec() -> Seq<StepKind> {
    seq![
        StepKind::InitSubmodules,
        StepKind::Materialize,
        StepKind::LinkSkills,
        StepKind::BuildArtifact,
        StepKind::InstallHooks,
        StepKind::InstallRederiver,
        StepKind::VerifySetup,
    ]
}

pub fn sequence() -> (v: Vec<StepKind>)
    ensures
        v@ == sequence_spec(),
{
    let v = vec![
        StepKind::InitSubmodules,
        StepKind::Materialize,
        StepKind::LinkSkills,
        StepKind::BuildArtifact,
        StepKind::InstallHooks,
        StepKind::InstallRederiver,
        StepKind::VerifySetup,
    ];
    assert(v@ =~= sequence_spec());
    v
}

/// One planned step: `satisfied` is read from the tree as it stands, so a
/// step already done is planned, reported, and not performed.
#[derive(Debug, Clone)]
pub struct Step {
    pub kind: StepKind,
    pub detail: String,
    pub satisfied: bool,
}

/// The entries of `git submodule status`: each line's path (its second
/// field), initialized unless the line starts with `-`.
pub open spec fn status_entries(ls: Seq<Seq<char>>) -> Seq<(bool, Seq<char>)>
    decreases ls.len(),
{
    if ls.len() == 0 {
        Seq::empty()
    } else {
        let l = ls.last();
        status_entries(ls.drop_last()) + match second_field(l) {
            Some(p) => seq![(!(l.len() > 0 && l[0] == '-'), p)],
            None => Seq::empty(),
        }
    }
}

pub open spec fn status_views(v: Seq<(bool, String)>) -> Seq<(bool, Seq<char>)> {
    v.map_values(|x: (bool, String)| (x.0, x.1@))
}

/// Read the output of `git submodule status` into (initialized, path) pairs.
pub fn parse_submodule_status(out: &str) -> (v: Vec<(bool, String)>)
    ensures
        status_views(v@) == status_entries(lines(out@)),
{
    let ls = lines_exec(&chars_of(out));
    let ghost lv = views(ls@);
    let mut v: Vec<(bool, String)> = Vec::new();
    let mut i: usize = 0;
    assert(status_views(v@) =~= status_entries(lv.subrange(0, 0)));
    while i < ls.len()
        invariant
            i <= ls@.len(),
            lv == views(ls@),
            status_views(v@) == status_entries(lv.subrange(0, i as int)),
        decreases ls.len() - i,
    {
        let ghost sub = lv.subrange(0, i + 1);
        assert(sub.drop_last() =~= lv.subrange(0, i as int));
        assert(sub.last() == ls@[i as int]@);
        let l = &ls[i];
        match second_field_exec(l) {
            Some(p) => {
                let init = !(l.len() > 0 && l[0] == '-');
                let ghost before = status_views(v@);
                v.push((init, string_of(&p)));
                assert(status_views(v@) =~= before.push((init, p@)));
            },
            None => {},
        }
        i = i + 1;
    }
    assert(lv.subrange(0, lv.len() as int) =~= lv);
    v
}

/// Whether the project declares any submodule at all, as git reports them.
pub fn declares_submodules(status: &Vec<(bool, String)>) -> (b: bool)
    ensures
        b == (status@.len() > 0),
{
    status.len() > 0
}

/// The declared submodules that are not initialized, in git's order.
pub open spec fn uninitialized(st: Seq<(bool, Seq<char>)>) -> Seq<Seq<char>>
    decreases st.len(),
{
    if st.len() == 0 {
        Seq::empty()
    } else {
        uninitialized(st.drop_last()) + if st.last().0 {
            Seq::empty()
        } else {
            seq![st.last().1]
        }
    }
}

/// The declared submodules that are not populated here: `git submodule
/// status` marks each with a leading `-`.
pub fn uninitialized_submodules(status: &Vec<(bool, String)>) -> (v: Vec<String>)
    ensures
        string_views(v@) == uninitialized(status_views(status@)),
{
    let ghost sv = status_views(status@);
    let mut v: Vec<String> = Vec::new();
    let mut i: usize = 0;
    assert(string_views(v@) =~= uninitialized(sv.subrange(0, 0)));
    while i < status.len()
        invariant
            i <= status@.len(),
            sv == status_views(status@),
            string_views(v@) == uninitialized(sv.subrange(0, i as int)),
        decreases status.len() - i,
    {
        let ghost sub = sv.subrange(0, i + 1);
        assert(sub.drop_last() =~= sv.subrange(0, i as int));
        assert(sub.last() == (status@[i as int].0, status@[i as int].1@));
        if !status[i].0 {
            let ghost before = string_views(v@);
            v.push(status[i].1.clone());
            assert(string_views(v@) =~= before.push(status@[i as int].1@));
        }
        i = i + 1;
    }
    assert(sv.subrange(0, sv.len() as int) =~= sv);
    v
}

/// The submodule paths `.gitmodules` declares: each `path = …` line.
pub open spec fn gitmodule_paths(ls: Seq<Seq<char>>) -> Seq<Seq<char>>
    decreases ls.len(),
{
    if ls.len() == 0 {
        Seq::empty()
    } else {
        let t = trim(ls.last());
        gitmodule_paths(ls.drop_last()) + if starts_with(t, "path = "@) {
            seq![trim(t.subrange(7, t.len() as int))]
        } else {
            Seq::empty()
        }
    }
}

pub fn submodule_paths(gitmodules: &str) -> (v: Vec<String>)
    ensures
        string_views(v@) == gitmodule_paths(lines(gitmodules@)),
{
    let ls = lines_exec(&chars_of(gitmodules));
    let ghost lv = views(ls@);
    let prefix = chars_of("path = ");
    proof { reveal_strlit("path = "); }
    let mut v: Vec<String> = Vec::new();
    let mut i: usize = 0;
    assert(string_views(v@) =~= gitmodule_paths(lv.subrange(0, 0)));
    while i < ls.len()
        invariant
            i <= ls@.len(),
            lv == views(ls@),
            prefix@ == "path = "@,
            prefix@.len() == 7,
            string_views(v@) == gitmodule_paths(lv.subrange(0, i as int)),
        decreases ls.len() - i,
    {
        let ghost sub = lv.subrange(0, i + 1);
        assert(sub.drop_last() =~= lv.subrange(0, i as int));
        assert(sub.last() == ls@[i as int]@);
        let t = trim_exec(&ls[i]);
        if starts_with_exec(&t, &prefix) {
            let p = trim_exec(&slice(&t, 7, t.len()));
            let ghost before = string_views(v@);
            v.push(string_of(&p));
            assert(string_views(v@) =~= before.push(p@));
        }
        i = i + 1;
    }
    assert(lv.subrange(0, lv.len() as int) =~= lv);
    v
}

/// Whether a component carries the shared re-deriver, whatever the recipe
/// calls it: it is named for it, or deploys it.
pub open spec fn carries_rederiver(s: Software) -> bool {
    s.name@ == "host-prove"@ || opt_text(s.deploy) == Some("host-prove"@)
}

/// The first component carrying the re-deriver.
pub open spec fn first_rederiver(recipe: Seq<Software>) -> Option<Software>
    decreases recipe.len(),
{
    if recipe.len() == 0 {
        None
    } else if carries_rederiver(recipe[0]) {
        Some(recipe[0])
    } else {
        first_rederiver(recipe.subrange(1, recipe.len() as int))
    }
}

/// The worktree of the component that carries the re-deriver, when it is
/// materialized (among `dirs`).
pub open spec fn rederiver_dir(recipe: Seq<Software>, dirs: Seq<Seq<char>>) -> Option<Seq<char>> {
    match first_rederiver(recipe) {
        Some(s) => if dirs.contains(worktree_rel(s.name@, s.branch@)) {
            Some(worktree_rel(s.name@, s.branch@))
        } else {
            None
        },
        None => None,
    }
}


/// The worktree of the component that carries the shared re-deriver, when it
/// is materialized; `dirs` are the repo-relative directories that exist.
pub fn rederiver_worktree(recipe: &Vec<Software>, dirs: &Vec<String>) -> (r: Option<String>)
    ensures
        opt_text(r) == rederiver_dir(recipe@, string_views(dirs@)),
{
    let mut i: usize = 0;
    assert(recipe@.subrange(0, recipe@.len() as int) =~= recipe@);
    while i < recipe.len()
        invariant
            i <= recipe@.len(),
            first_rederiver(recipe@) == first_rederiver(recipe@.subrange(i as int, recipe@.len() as int)),
        decreases recipe.len() - i,
    {
        let ghost rest = recipe@.subrange(i as int, recipe@.len() as int);
        assert(rest[0] == recipe@[i as int]);
        assert(rest.subrange(1, rest.len() as int) =~= recipe@.subrange(i + 1, recipe@.len() as int));
        let s = &recipe[i];
        proof { reveal_strlit("host-prove"); }
        let named = eq_chars(&chars_of(s.name.as_str()), &chars_of("host-prove"));
        let deploys = match &s.deploy {
            Some(d) => eq_chars(&chars_of(d.as_str()), &chars_of("host-prove")),
            None => false,
        };
        if named || deploys {
            let d = worktree_label(s.name.as_str(), s.branch.as_str());
            if crate::setup::is_listed(dirs, d.as_str()) {
                return Some(d);
            }
            return None;
        }
        i = i + 1;
    }
    None
}

/// What the program read from the tree for the orchestrator.
pub struct TreeFacts {
    /// The number of submodules `.gitmodules` declares.
    pub declared_submodules: u64,
    /// The declared submodules git reports uninitialized.
    pub uninitialized: Vec<String>,
    /// The repo-relative directories that exist.
    pub dirs: Vec<String>,
    /// The repo-relative paths that are regular files.
    pub files: Vec<String>,
    /// How many skills the materialized sources offer.
    pub skills_offered: u64,
    /// Whether every offered skill resolves under the skills link directory.
    pub skills_linked: bool,
    /// Whether a materialized worktree declares a proof rung.
    pub rung_declared: bool,
    /// Whether the shared re-deriver already runs here.
    pub rederiver_runs: bool,
    /// This platform's name.
    pub os: String,
}

/// An artifact the commit gate needs locally and the tree lacks: the
/// component, its recorded build command, and its worktree.
pub type Owed = (Seq<char>, Seq<char>, Seq<char>);

/// A recorded build as the orchestrator reads it: artifact, build command,
/// attest host.
pub type BuildFact = (Option<(Seq<char>, Seq<char>)>, Option<Seq<char>>, Option<Seq<char>>);

/// The builds a component records: its per-platform entries, else the flat
/// fields.
pub open spec fn build_facts(s: Software) -> Seq<BuildFact> {
    if s.builds@.len() == 0 {
        seq![(opt_pair(s.artifact), opt_text(s.build), None)]
    } else {
        s.builds@.map_values(
            |b: crate::recipe::PlatformBuild| (opt_pair(b.artifact), opt_text(b.build), opt_text(b.attest_host)),
        )
    }
}

/// The artifacts a gate provider owes, from its builds: each with both an
/// artifact and a build command, expected on this host, whose artifact is
/// absent from the worktree.
pub open spec fn owed_builds(s: Software, bs: Seq<BuildFact>, os: Seq<char>, files: Seq<Seq<char>>) -> Seq<Owed>
    decreases bs.len(),
{
    if bs.len() == 0 {
        Seq::empty()
    } else {
        let b = bs.last();
        let wt = worktree_rel(s.name@, s.branch@);
        owed_builds(s, bs.drop_last(), os, files) + match (b.0, b.1) {
            (Some(a), Some(build)) => if crate::setup::built_on(b.2, os) && !files.contains(crate::text::path_join(wt, a.0)) {
                seq![(s.name@, build, wt)]
            } else {
                Seq::empty()
            },
            _ => Seq::empty(),
        }
    }
}

/// The artifacts this tree needs locally and lacks: only a component that
/// declares the commit gate owes one (its hooks install the binary from the
/// worktree), and only once its worktree is materialized. Other artifacts are
/// attested in their recorded toolchain, never built here.
pub open spec fn owed(recipe: Seq<Software>, os: Seq<char>, dirs: Seq<Seq<char>>, files: Seq<Seq<char>>) -> Seq<Owed>
    decreases recipe.len(),
{
    if recipe.len() == 0 {
        Seq::empty()
    } else {
        let s = recipe.last();
        owed(recipe.drop_last(), os, dirs, files) + if s.hooks is Some && dirs.contains(
            worktree_rel(s.name@, s.branch@),
        ) {
            owed_builds(s, build_facts(s), os, files)
        } else {
            Seq::empty()
        }
    }
}

pub open spec fn owed_views(v: Seq<(String, String, String)>) -> Seq<Owed> {
    v.map_values(|x: (String, String, String)| (x.0@, x.1@, x.2@))
}

fn add_owed(out: &mut Vec<(String, String, String)>, s: &Software, os: &str, files: &Vec<String>)
    ensures
        owed_views(final(out)@) == owed_views(old(out)@) + owed_builds(*s, build_facts(*s), os@, string_views(files@)),
{
    let bv = s.builds_view();
    let ghost bf = build_facts(*s);
    assert(bv@.len() == bf.len());
    assert forall|k: int| 0 <= k < bf.len() implies (#[trigger] bf[k]) == (opt_pair(bv@[k].artifact), opt_text(bv@[k].build), opt_text(bv@[k].attest_host)) by {
    }
    let ghost start = owed_views(out@);
    let ghost fv = string_views(files@);
    let wt = worktree_label(s.name.as_str(), s.branch.as_str());
    let mut i: usize = 0;
    assert(owed_views(out@) =~= start + owed_builds(*s, bf.subrange(0, 0), os@, fv));
    while i < bv.len()
        invariant
            i <= bv@.len(),
            bv@.len() == bf.len(),
            bf == build_facts(*s),
            fv == string_views(files@),
            wt@ == worktree_rel(s.name@, s.branch@),
            forall|k: int| 0 <= k < bf.len() ==> (#[trigger] bf[k]) == (opt_pair(bv@[k].artifact), opt_text(bv@[k].build), opt_text(bv@[k].attest_host)),
            owed_views(out@) == start + owed_builds(*s, bf.subrange(0, i as int), os@, fv),
        decreases bv.len() - i,
    {
        let ghost sub = bf.subrange(0, i + 1);
        assert(sub.drop_last() =~= bf.subrange(0, i as int));
        assert(sub.last() == bf[i as int]);
        let b = &bv[i];
        match (&b.artifact, &b.build) {
            (Some(a), Some(build)) => {
                let here = match &b.attest_host {
                    Some(h) => crate::setup::built_here(Some(h.as_str()), os),
                    None => crate::setup::built_here(None, os),
                };
                let ap = crate::text::join_path(wt.as_str(), a.0.as_str());
                if here && !crate::setup::is_listed(files, ap.as_str()) {
                    let ghost before = owed_views(out@);
                    out.push((s.name.clone(), build.clone(), wt.clone()));
                    assert(owed_views(out@) =~= before.push((s.name@, build@, wt@)));
                }
            },
            _ => {},
        }
        assert(owed_views(out@) =~= start + owed_builds(*s, sub, os@, fv));
        i = i + 1;
    }
    assert(bf.subrange(0, bf.len() as int) =~= bf);
}

pub fn artifact_owed(recipe: &Vec<Software>, os: &str, dirs: &Vec<String>, files: &Vec<String>) -> (out: Vec<(String, String, String)>)
    ensures
        owed_views(out@) == owed(recipe@, os@, string_views(dirs@), string_views(files@)),
{
    let mut out: Vec<(String, String, String)> = Vec::new();
    let mut i: usize = 0;
    assert(owed_views(out@) =~= owed(recipe@.subrange(0, 0), os@, string_views(dirs@), string_views(files@)));
    while i < recipe.len()
        invariant
            i <= recipe@.len(),
            owed_views(out@) == owed(recipe@.subrange(0, i as int), os@, string_views(dirs@), string_views(files@)),
        decreases recipe.len() - i,
    {
        let ghost sub = recipe@.subrange(0, i + 1);
        assert(sub.drop_last() =~= recipe@.subrange(0, i as int));
        assert(sub.last() == recipe@[i as int]);
        let s = &recipe[i];
        if s.hooks.is_some() {
            let wt = worktree_label(s.name.as_str(), s.branch.as_str());
            if crate::setup::is_listed(dirs, wt.as_str()) {
                add_owed(&mut out, s, os, files);
            }
        }
        i = i + 1;
    }
    assert(recipe@.subrange(0, recipe@.len() as int) =~= recipe@);
    out
}


pub struct StepView {
    pub kind: StepKind,
    pub detail: Seq<char>,
    pub satisfied: bool,
}

impl View for Step {
    type V = StepView;

    open spec fn view(&self) -> StepView {
        StepView { kind: self.kind, detail: self.detail@, satisfied: self.satisfied }
    }
}

/// The re-deriver install the tree owes: a declared rung, a driver that does
/// not run here, and a materialized component to install it from.
pub open spec fn rederiver_owed(recipe: Seq<Software>, f: TreeFacts) -> Option<Seq<char>> {
    if !f.rung_declared || f.rederiver_runs {
        None
    } else {
        rederiver_dir(recipe, string_views(f.dirs@))
    }
}

/// Whether every component's canonical worktree is materialized.
pub open spec fn all_materialized(recipe: Seq<Software>, dirs: Seq<Seq<char>>) -> bool {
    forall|k: int| 0 <= k < recipe.len() ==> dirs.contains(worktree_rel((#[trigger] recipe[k]).name@, recipe[k].branch@))
}

/// One step read against the tree: what it is about, and whether the tree
/// already satisfies it. The hook copy and the completeness check always
/// run.
pub open spec fn step_spec(recipe: Seq<Software>, f: TreeFacts, kind: StepKind) -> StepView {
    let dirs = string_views(f.dirs@);
    let (detail, satisfied) = match kind {
        StepKind::InitSubmodules => (padded(f.declared_submodules as nat, 1) + " declared"@, f.uninitialized@.len() == 0),
        StepKind::Materialize => (padded(recipe.len(), 1) + " component(s)"@, all_materialized(recipe, dirs)),
        StepKind::LinkSkills => (padded(f.skills_offered as nat, 1) + " skill(s) offered"@, f.skills_linked),
        StepKind::BuildArtifact => {
            let o = owed(recipe, f.os@, dirs, string_views(f.files@));
            (joined(o.map_values(|x: Owed| x.0), ", "@), o.len() == 0)
        },
        StepKind::InstallHooks => ("host repository and every materialized worktree"@, false),
        StepKind::InstallRederiver => ("host-prove"@, rederiver_owed(recipe, f) is None),
        StepKind::VerifySetup => ("the completeness gate"@, false),
    };
    StepView { kind, detail, satisfied }
}

fn materialized(recipe: &Vec<Software>, dirs: &Vec<String>) -> (b: bool)
    ensures
        b == all_materialized(recipe@, string_views(dirs@)),
{
    let mut i: usize = 0;
    while i < recipe.len()
        invariant
            i <= recipe@.len(),
            forall|k: int| 0 <= k < i ==> string_views(dirs@).contains(worktree_rel((#[trigger] recipe@[k]).name@, recipe@[k].branch@)),
        decreases recipe.len() - i,
    {
        let wt = worktree_label(recipe[i].name.as_str(), recipe[i].branch.as_str());
        if !crate::setup::is_listed(dirs, wt.as_str()) {
            return false;
        }
        i = i + 1;
    }
    true
}

fn owed_names(o: &Vec<(String, String, String)>) -> (r: String)
    ensures
        r@ == joined(owed_views(o@).map_values(|x: Owed| x.0), ", "@),
{
    let mut names: Vec<String> = Vec::new();
    let mut i: usize = 0;
    while i < o.len()
        invariant
            i <= o@.len(),
            string_views(names@) == owed_views(o@).subrange(0, i as int).map_values(|x: Owed| x.0),
        decreases o.len() - i,
    {
        let ghost before = string_views(names@);
        names.push(o[i].0.clone());
        assert(string_views(names@) =~= before.push(o@[i as int].0@));
        assert(owed_views(o@)[i as int].0 == o@[i as int].0@);
        assert(string_views(names@) =~= owed_views(o@).subrange(0, i + 1).map_values(|x: Owed| x.0));
        i = i + 1;
    }
    assert(owed_views(o@).subrange(0, o@.len() as int) =~= owed_views(o@));
    crate::text::join_texts(&names, ", ")
}

fn text_then(n: String, tail: &str) -> (r: String)
    ensures
        r@ == n@ + tail@,
{
    let mut s = n;
    s.append(tail);
    s
}

/// Read one step against the tree as the facts describe it. The runner reads
/// the facts again before each step: each step changes what the next one
/// reads.
pub fn read_step(recipe: &Vec<Software>, f: &TreeFacts, kind: StepKind) -> (s: Step)
    ensures
        s@ == step_spec(recipe@, *f, kind),
{
    let (detail, satisfied) = match kind {
        StepKind::InitSubmodules => (
            text_then(decimal_text(f.declared_submodules), " declared"),
            f.uninitialized.len() == 0,
        ),
        StepKind::Materialize => (
            text_then(decimal_text(recipe.len() as u64), " component(s)"),
            materialized(recipe, &f.dirs),
        ),
        StepKind::LinkSkills => (
            text_then(decimal_text(f.skills_offered), " skill(s) offered"),
            f.skills_linked,
        ),
        StepKind::BuildArtifact => {
            let o = artifact_owed(recipe, f.os.as_str(), &f.dirs, &f.files);
            let n = owed_names(&o);
            (n, o.len() == 0)
        },
        StepKind::InstallHooks => (String::from_str("host repository and every materialized worktree"), false),
        StepKind::InstallRederiver => {
            let owes = if !f.rung_declared || f.rederiver_runs {
                false
            } else {
                rederiver_worktree(recipe, &f.dirs).is_some()
            };
            (String::from_str("host-prove"), !owes)
        },
        StepKind::VerifySetup => (String::from_str("the completeness gate"), false),
    };
    Step { kind, detail, satisfied }
}

/// The whole sequence read against the tree as it stands.
pub fn plan_steps(recipe: &Vec<Software>, f: &TreeFacts) -> (out: Vec<Step>)
    ensures
        out@.len() == sequence_spec().len(),
        forall|k: int| 0 <= k < out@.len() ==> (#[trigger] out@[k])@ == step_spec(recipe@, *f, sequence_spec()[k]),
{
    let seq_ = sequence();
    let mut out: Vec<Step> = Vec::new();
    let mut i: usize = 0;
    while i < seq_.len()
        invariant
            i <= seq_@.len(),
            seq_@ == sequence_spec(),
            out@.len() == i,
            forall|k: int| 0 <= k < i ==> (#[trigger] out@[k])@ == step_spec(recipe@, *f, sequence_spec()[k]),
        decreases seq_.len() - i,
    {
        out.push(read_step(recipe, f, seq_[i]));
        i = i + 1;
    }
    out
}

/// The line the runner prints before a step: `skip` for one the tree already
/// satisfies, `step` for one it performs.
pub open spec fn step_line_spec(s: StepView) -> Seq<char> {
    (if s.satisfied { "skip     "@ } else { "step     "@ }) + step_label(s.kind) + " ("@ + s.detail + ")"@
}

pub fn step_line(s: &Step) -> (r: String)
    ensures
        r@ == step_line_spec(s@),
{
    let mut r = if s.satisfied { String::from_str("skip     ") } else { String::from_str("step     ") };
    r.append(s.kind.label());
    r.append(" (");
    r.append(s.detail.as_str());
    r.append(")");
    r
}

/// The directory `bootstrap` is asked to run on: its first argument that is
/// not a flag.
pub open spec fn first_operand(args: Seq<Seq<char>>) -> Option<Seq<char>>
    decreases args.len(),
{
    if args.len() == 0 {
        None
    } else if !starts_with(args[0], "--"@) {
        Some(args[0])
    } else {
        first_operand(args.subrange(1, args.len() as int))
    }
}

pub fn bootstrap_dir(args: &Vec<String>) -> (r: Option<String>)
    ensures
        opt_text(r) == first_operand(string_views(args@)),
{
    let flag = chars_of("--");
    let ghost av = string_views(args@);
    let mut i: usize = 0;
    assert(av.subrange(0, av.len() as int) =~= av);
    while i < args.len()
        invariant
            i <= args@.len(),
            av == string_views(args@),
            flag@ == "--"@,
            first_operand(av) == first_operand(av.subrange(i as int, av.len() as int)),
        decreases args.len() - i,
    {
        let ghost rest = av.subrange(i as int, av.len() as int);
        assert(rest[0] == args@[i as int]@);
        assert(rest.subrange(1, rest.len() as int) =~= av.subrange(i + 1, av.len() as int));
        if !starts_with_exec(&chars_of(args[i].as_str()), &flag) {
            return Some(args[i].clone());
        }
        i = i + 1;
    }
    None
}


/// A tree in which every predictable step already holds: submodules
/// initialized, worktrees materialized, skills linked, no artifact owed, no
/// re-deriver owed.
pub open spec fn complete_tree(recipe: Seq<Software>, f: TreeFacts) -> bool {
    &&& f.uninitialized@.len() == 0
    &&& all_materialized(recipe, string_views(f.dirs@))
    &&& f.skills_linked
    &&& owed(recipe, f.os@, string_views(f.dirs@), string_views(f.files@)).len() == 0
    &&& rederiver_owed(recipe, f) is None
}

/// A second run over a complete tree performs nothing but the two steps that
/// always run, the hook copy and the completeness check, and the check is
/// the last step of every run.
pub proof fn lemma_second_run_performs_nothing(recipe: Seq<Software>, f: TreeFacts, k: int)
    requires
        complete_tree(recipe, f),
        0 <= k < sequence_spec().len(),
    ensures
        !step_spec(recipe, f, sequence_spec()[k]).satisfied <==> sequence_spec()[k] == StepKind::InstallHooks
            || sequence_spec()[k] == StepKind::VerifySetup,
        sequence_spec().last() == StepKind::VerifySetup,
{
}


/// The number of leading components two paths share.
pub open spec fn shared_len(a: Seq<Seq<char>>, b: Seq<Seq<char>>) -> nat
    decreases a.len(),
{
    if a.len() > 0 && b.len() > 0 && a[0] == b[0] {
        1 + shared_len(a.drop_first(), b.drop_first())
    } else {
        0
    }
}

pub proof fn lemma_shared_len(a: Seq<Seq<char>>, b: Seq<Seq<char>>, k: int)
    requires
        0 <= k <= a.len(),
        k <= b.len(),
        a.subrange(0, k) == b.subrange(0, k),
    ensures
        shared_len(a, b) == k + shared_len(a.subrange(k, a.len() as int), b.subrange(k, b.len() as int)),
    decreases k,
{
    if k > 0 {
        assert(a[0] == a.subrange(0, k)[0]);
        assert(b[0] == b.subrange(0, k)[0]);
        assert(a.drop_first().subrange(0, k - 1) =~= a.subrange(0, k).drop_first());
        assert(b.drop_first().subrange(0, k - 1) =~= b.subrange(0, k).drop_first());
        lemma_shared_len(a.drop_first(), b.drop_first(), k - 1);
        assert(a.drop_first().subrange(k - 1, a.len() - 1) =~= a.subrange(k, a.len() as int));
        assert(b.drop_first().subrange(k - 1, b.len() - 1) =~= b.subrange(k, b.len() as int));
    } else {
        assert(a.subrange(0, a.len() as int) =~= a);
        assert(b.subrange(0, b.len() as int) =~= b);
    }
}

/// `src` relative to the directory `from`, both absolute and given by their
/// components below the root: climb from `from` one `..` at a time to the
/// first directory that holds `src`, then descend. A link written this way
/// keeps resolving inside a copied tree instead of pointing back at the
/// tree it was copied from. A path that climbs and then names nothing ends in `/`, as
/// joining an empty path onto one does.
pub open spec fn relative_path(from: Seq<Seq<char>>, src: Seq<Seq<char>>) -> Seq<char> {
    let k = shared_len(from, src);
    let ups = Seq::new((from.len() - k) as nat, |i: int| ".."@);
    let rest = joined(src.subrange(k as int, src.len() as int), "/"@);
    if ups.len() == 0 {
        rest
    } else {
        joined(ups, "/"@) + "/"@ + rest
    }
}

/// The target of a relative link at `from` to `src`.
pub fn pathdiff(from: &Vec<String>, src: &Vec<String>) -> (r: String)
    ensures
        r@ == relative_path(string_views(from@), string_views(src@)),
{
    let ghost f = string_views(from@);
    let ghost s = string_views(src@);
    let mut k: usize = 0;
    while k < from.len() && k < src.len() && eq_chars(&chars_of(from[k].as_str()), &chars_of(src[k].as_str()))
        invariant
            k <= from@.len(),
            k <= src@.len(),
            f == string_views(from@),
            s == string_views(src@),
            f.subrange(0, k as int) == s.subrange(0, k as int),
        decreases from.len() - k,
    {
        assert(f.subrange(0, k + 1) =~= f.subrange(0, k as int).push(f[k as int]));
        assert(s.subrange(0, k + 1) =~= s.subrange(0, k as int).push(s[k as int]));
        k = k + 1;
    }
    proof {
        lemma_shared_len(f, s, k as int);
        let fr = f.subrange(k as int, f.len() as int);
        let sr = s.subrange(k as int, s.len() as int);
        if fr.len() > 0 && sr.len() > 0 {
            assert(fr[0] == f[k as int] && sr[0] == s[k as int]);
        }
        assert(shared_len(fr, sr) == 0);
    }
    let mut ups: Vec<String> = Vec::new();
    let mut i: usize = k;
    while i < from.len()
        invariant
            k <= i <= from@.len(),
            ups@.len() == i - k,
            forall|q: int| 0 <= q < ups@.len() ==> (#[trigger] ups@[q])@ == ".."@,
        decreases from.len() - i,
    {
        ups.push(String::from_str(".."));
        proof { reveal_strlit(".."); }
        i = i + 1;
    }
    let mut rest: Vec<String> = Vec::new();
    let mut j: usize = k;
    while j < src.len()
        invariant
            k <= j <= src@.len(),
            s == string_views(src@),
            string_views(rest@) == s.subrange(k as int, j as int),
        decreases src.len() - j,
    {
        rest.push(src[j].clone());
        assert(s.subrange(k as int, j + 1) =~= s.subrange(k as int, j as int).push(s[j as int]));
        j = j + 1;
    }
    let tail = crate::text::join_texts(&rest, "/");
    proof {
        let dots = Seq::new((f.len() - k) as nat, |q: int| ".."@);
        assert(string_views(ups@) =~= dots);
    }
    if ups.len() == 0 {
        tail
    } else {
        let mut r = crate::text::join_texts(&ups, "/");
        r.append("/");
        r.append(tail.as_str());
        r
    }
}


/// A directory that may offer skills, as the program found it: its absolute
/// path by its components below the root, whether it ships one root
/// `SKILL.md`, and the names of the directories under its `skills/`.
pub struct SkillDir {
    pub parts: Vec<String>,
    pub root_skill: bool,
    pub skills: Vec<String>,
}

/// An offered skill: its name and its source directory, by the components of
/// its absolute path below the root.
#[derive(Debug, Clone)]
pub struct SkillSource {
    pub name: String,
    pub parts: Vec<String>,
}

pub type SourceView = (Seq<char>, Seq<Seq<char>>);

pub open spec fn source_view(x: SkillSource) -> SourceView {
    (x.name@, string_views(x.parts@))
}

pub open spec fn source_views(v: Seq<SkillSource>) -> Seq<SourceView> {
    v.map_values(|x: SkillSource| source_view(x))
}

/// The order of paths: component by component, a path before any path it is
/// a proper prefix of.
pub open spec fn parts_lt(a: Seq<Seq<char>>, b: Seq<Seq<char>>) -> bool
    decreases a.len(),
{
    if a.len() == 0 {
        b.len() > 0
    } else if b.len() == 0 {
        false
    } else if a[0] != b[0] {
        text_lt(a[0], b[0])
    } else {
        parts_lt(a.drop_first(), b.drop_first())
    }
}

/// The order of (name, path) pairs: by name, then by path.
pub open spec fn source_lt(x: SourceView, y: SourceView) -> bool {
    text_lt(x.0, y.0) || (x.0 == y.0 && parts_lt(x.1, y.1))
}

pub open spec fn sources_sorted(s: Seq<SourceView>) -> bool {
    forall|i: int, j: int| 0 <= i < j < s.len() ==> source_lt(#[trigger] s[i], #[trigger] s[j])
}

pub proof fn lemma_parts_lt_total(a: Seq<Seq<char>>, b: Seq<Seq<char>>)
    ensures
        parts_lt(a, b) || parts_lt(b, a) || a == b,
        !(parts_lt(a, b) && parts_lt(b, a)),
        !parts_lt(a, a),
    decreases a.len(),
{
    if a.len() > 0 && b.len() > 0 {
        lemma_text_lt_total(a[0], b[0]);
        lemma_parts_lt_total(a.drop_first(), b.drop_first());
        lemma_parts_lt_total(a.drop_first(), a.drop_first());
        if a[0] == b[0] && a.drop_first() == b.drop_first() {
            assert(a =~= seq![a[0]] + a.drop_first());
            assert(b =~= seq![b[0]] + b.drop_first());
        }
    } else if a.len() == 0 && b.len() == 0 {
        assert(a =~= b);
    } else if a.len() > 0 {
        lemma_parts_lt_total(a.drop_first(), a.drop_first());
    }
}

pub proof fn lemma_parts_lt_trans(a: Seq<Seq<char>>, b: Seq<Seq<char>>, c: Seq<Seq<char>>)
    requires
        parts_lt(a, b),
        parts_lt(b, c),
    ensures
        parts_lt(a, c),
    decreases a.len(),
{
    if a.len() > 0 && b.len() > 0 && c.len() > 0 {
        if a[0] == b[0] && b[0] == c[0] {
            lemma_parts_lt_trans(a.drop_first(), b.drop_first(), c.drop_first());
        } else if a[0] != b[0] && b[0] != c[0] {
            lemma_text_lt_trans(a[0], b[0], c[0]);
            lemma_text_lt_total(a[0], c[0]);
        } else {
            lemma_text_lt_total(a[0], c[0]);
        }
    }
}

pub proof fn lemma_source_lt_total(x: SourceView, y: SourceView)
    ensures
        source_lt(x, y) || source_lt(y, x) || x == y,
        !(source_lt(x, y) && source_lt(y, x)),
        !source_lt(x, x),
{
    lemma_text_lt_total(x.0, y.0);
    lemma_text_lt_total(x.0, x.0);
    lemma_parts_lt_total(x.1, y.1);
    lemma_parts_lt_total(x.1, x.1);
}

pub proof fn lemma_source_lt_trans(x: SourceView, y: SourceView, z: SourceView)
    requires
        source_lt(x, y),
        source_lt(y, z),
    ensures
        source_lt(x, z),
{
    lemma_text_lt_total(x.0, y.0);
    lemma_text_lt_total(y.0, z.0);
    if text_lt(x.0, y.0) && text_lt(y.0, z.0) {
        lemma_text_lt_trans(x.0, y.0, z.0);
    } else if x.0 == y.0 && y.0 == z.0 {
        lemma_parts_lt_trans(x.1, y.1, z.1);
    }
}

fn parts_less(a: &Vec<String>, b: &Vec<String>) -> (r: bool)
    ensures
        r == parts_lt(string_views(a@), string_views(b@)),
{
    let ghost av = string_views(a@);
    let ghost bv = string_views(b@);
    let mut i: usize = 0;
    assert(av.subrange(0, av.len() as int) =~= av);
    assert(bv.subrange(0, bv.len() as int) =~= bv);
    while i < a.len() && i < b.len() && eq_chars(&chars_of(a[i].as_str()), &chars_of(b[i].as_str()))
        invariant
            i <= a@.len(),
            i <= b@.len(),
            av == string_views(a@),
            bv == string_views(b@),
            parts_lt(av, bv) == parts_lt(av.subrange(i as int, av.len() as int), bv.subrange(i as int, bv.len() as int)),
        decreases a.len() - i,
    {
        assert(av.subrange(i as int, av.len() as int).drop_first() =~= av.subrange(i + 1, av.len() as int));
        assert(bv.subrange(i as int, bv.len() as int).drop_first() =~= bv.subrange(i + 1, bv.len() as int));
        i = i + 1;
    }
    if i == a.len() {
        i < b.len()
    } else if i == b.len() {
        false
    } else {
        assert(av.subrange(i as int, av.len() as int)[0] == av[i as int]);
        assert(bv.subrange(i as int, bv.len() as int)[0] == bv[i as int]);
        crate::text::text_less(&chars_of(a[i].as_str()), &chars_of(b[i].as_str()))
    }
}

fn parts_same(a: &Vec<String>, b: &Vec<String>) -> (r: bool)
    ensures
        r == (string_views(a@) == string_views(b@)),
{
    let ghost av = string_views(a@);
    let ghost bv = string_views(b@);
    if a.len() != b.len() {
        assert(av.len() != bv.len());
        return false;
    }
    let mut i: usize = 0;
    while i < a.len()
        invariant
            i <= a@.len(),
            a@.len() == b@.len(),
            av == string_views(a@),
            bv == string_views(b@),
            forall|q: int| 0 <= q < i ==> av[q] == bv[q],
        decreases a.len() - i,
    {
        if !eq_chars(&chars_of(a[i].as_str()), &chars_of(b[i].as_str())) {
            assert(av[i as int] != bv[i as int]);
            return false;
        }
        i = i + 1;
    }
    assert(av =~= bv);
    true
}

fn source_less(x: &SkillSource, y: &SkillSource) -> (r: bool)
    ensures
        r == source_lt(source_view(*x), source_view(*y)),
{
    let xn = chars_of(x.name.as_str());
    let yn = chars_of(y.name.as_str());
    if crate::text::text_less(&xn, &yn) {
        true
    } else if eq_chars(&xn, &yn) {
        parts_less(&x.parts, &y.parts)
    } else {
        false
    }
}

fn source_same(x: &SkillSource, y: &SkillSource) -> (r: bool)
    ensures
        r == (source_view(*x) == source_view(*y)),
{
    eq_chars(&chars_of(x.name.as_str()), &chars_of(y.name.as_str())) && parts_same(&x.parts, &y.parts)
}

/// Insert a source into a strictly sorted list unless it is there.
fn insert_source(v: &mut Vec<SkillSource>, x: SkillSource)
    requires
        sources_sorted(source_views(old(v)@)),
    ensures
        sources_sorted(source_views(final(v)@)),
        source_views(final(v)@).to_set() == source_views(old(v)@).to_set().insert(source_view(x)),
{
    let ghost ob = source_views(v@);
    let ghost xv = source_view(x);
    let mut p: usize = 0;
    while p < v.len() && source_less(&v[p], &x)
        invariant
            p <= v@.len(),
            ob == source_views(v@),
            xv == source_view(x),
            forall|k: int| 0 <= k < p ==> source_lt(#[trigger] ob[k], xv),
        decreases v.len() - p,
    {
        p = p + 1;
    }
    if p < v.len() && source_same(&v[p], &x) {
        assert(ob[p as int] == xv);
        assert(ob.to_set() =~= ob.to_set().insert(xv));
        return;
    }
    proof {
        if p < ob.len() {
            lemma_source_lt_total(ob[p as int], xv);
            assert(source_lt(xv, ob[p as int]));
            assert forall|k: int| p <= k < ob.len() implies source_lt(xv, #[trigger] ob[k]) by {
                if k > p {
                    lemma_source_lt_trans(xv, ob[p as int], ob[k]);
                }
            }
        }
    }
    v.insert(p, x);
    proof {
        let na = source_views(v@);
        assert(na =~= ob.insert(p as int, xv));
        assert forall|i: int, j: int| 0 <= i < j < na.len() implies source_lt(#[trigger] na[i], #[trigger] na[j]) by {
            if j < p {
                assert(na[i] == ob[i] && na[j] == ob[j]);
            } else if j == p {
                assert(na[i] == ob[i]);
            } else if i < p {
                assert(na[i] == ob[i] && na[j] == ob[j - 1]);
                if i < j - 1 {
                    assert(source_lt(ob[i], ob[j - 1]));
                } else {
                    lemma_source_lt_trans(ob[i], xv, ob[j - 1]);
                }
            } else if i == p {
                assert(na[j] == ob[j - 1]);
            } else {
                assert(na[i] == ob[i - 1] && na[j] == ob[j - 1]);
            }
        }
        assert(na.to_set() =~= ob.to_set().insert(xv)) by {
            assert forall|y: SourceView| na.to_set().contains(y) <==> ob.to_set().insert(xv).contains(y) by {
                if na.contains(y) {
                    let k = choose|k: int| 0 <= k < na.len() && na[k] == y;
                    if k < p {
                        assert(ob[k] == y);
                    } else if k > p {
                        assert(ob[k - 1] == y);
                    }
                }
                if ob.contains(y) {
                    let k = choose|k: int| 0 <= k < ob.len() && ob[k] == y;
                    if k < p {
                        assert(na[k] == y);
                    } else {
                        assert(na[k + 1] == y);
                    }
                }
                if y == xv {
                    assert(na[p as int] == xv);
                }
            }
        }
    }
}


/// The name a component's root skill is linked under: its directory's name,
/// or, for a worktree directory named `main`, the name of the directory that
/// holds it.
pub open spec fn component_name(parts: Seq<Seq<char>>) -> Seq<char> {
    if parts.last() == "main"@ && parts.len() >= 2 {
        parts[parts.len() - 2]
    } else {
        parts.last()
    }
}

/// What one directory offers: its root skill under the component's name, and
/// each directory under its `skills/` under its own name.
pub open spec fn offered_by(d: SkillDir) -> Seq<SourceView> {
    let p = string_views(d.parts@);
    (if d.root_skill && p.len() > 0 {
        seq![(component_name(p), p)]
    } else {
        Seq::empty()
    }) + string_views(d.skills@).map_values(|n: Seq<char>| (n, p + seq!["skills"@, n]))
}

pub open spec fn offered(ds: Seq<SkillDir>) -> Seq<SourceView>
    decreases ds.len(),
{
    if ds.len() == 0 {
        Seq::empty()
    } else {
        offered(ds.drop_last()) + offered_by(ds.last())
    }
}

fn add_offered(out: &mut Vec<SkillSource>, d: &SkillDir)
    requires
        sources_sorted(source_views(old(out)@)),
    ensures
        sources_sorted(source_views(final(out)@)),
        source_views(final(out)@).to_set() == source_views(old(out)@).to_set() + offered_by(*d).to_set(),
{
    let ghost start = source_views(out@).to_set();
    let ghost p = string_views(d.parts@);
    let ghost head: Seq<SourceView> = if d.root_skill && p.len() > 0 {
        seq![(component_name(p), p)]
    } else {
        Seq::empty()
    };
    let ghost tail = string_views(d.skills@).map_values(|n: Seq<char>| (n, p + seq!["skills"@, n]));
    let ghost mut acc: Seq<SourceView> = Seq::empty();
    assert(start + acc.to_set() =~= start);
    if d.root_skill && d.parts.len() > 0 {
        let n = d.parts.len();
        let last = &d.parts[n - 1];
        proof { reveal_strlit("main"); }
        let name = if n >= 2 && eq_chars(&chars_of(last.as_str()), &chars_of("main")) {
            d.parts[n - 2].clone()
        } else {
            last.clone()
        };
        let src = SkillSource { name, parts: d.parts.clone() };
        assert(source_view(src) == (component_name(p), p));
        insert_source(out, src);
        proof {
            let e: Seq<SourceView> = Seq::empty();
            e.lemma_push_to_set_commute((component_name(p), p));
            assert(e.to_set() =~= Set::<SourceView>::empty());
            acc = e.push((component_name(p), p));
            assert(Seq::<SourceView>::empty().push((component_name(p), p)) =~= seq![(component_name(p), p)]);
            assert(start + acc.to_set() =~= start.insert((component_name(p), p)));
        }
    }
    assert(acc == head);
    let mut j: usize = 0;
    while j < d.skills.len()
        invariant
            j <= d.skills@.len(),
            p == string_views(d.parts@),
            tail == string_views(d.skills@).map_values(|n: Seq<char>| (n, p + seq!["skills"@, n])),
            acc == head + tail.subrange(0, j as int),
            sources_sorted(source_views(out@)),
            source_views(out@).to_set() == start + acc.to_set(),
        decreases d.skills.len() - j,
    {
        let mut parts = d.parts.clone();
        parts.push(String::from_str("skills"));
        parts.push(d.skills[j].clone());
        proof { reveal_strlit("skills"); }
        let src = SkillSource { name: d.skills[j].clone(), parts };
        let ghost xv = (d.skills@[j as int]@, p + seq!["skills"@, d.skills@[j as int]@]);
        assert(source_view(src).1 =~= xv.1);
        assert(tail[j as int] == xv);
        insert_source(out, src);
        proof {
            let old_acc = acc;
            acc = acc.push(xv);
            old_acc.lemma_push_to_set_commute(xv);
            assert(tail.subrange(0, j + 1) =~= tail.subrange(0, j as int).push(xv));
            assert(acc =~= head + tail.subrange(0, j + 1));
            assert(start + acc.to_set() =~= (start + old_acc.to_set()).insert(xv));
        }
        j = j + 1;
    }
    assert(tail.subrange(0, tail.len() as int) =~= tail);
    assert(acc =~= offered_by(*d));
}

/// Every skill the directories offer, each (name, source) once, in the order
/// of names and then of paths.
pub fn skill_sources(dirs: &Vec<SkillDir>) -> (out: Vec<SkillSource>)
    ensures
        sources_sorted(source_views(out@)),
        source_views(out@).to_set() == offered(dirs@).to_set(),
{
    let mut out: Vec<SkillSource> = Vec::new();
    let mut i: usize = 0;
    assert(source_views(out@).to_set() =~= offered(dirs@.subrange(0, 0)).to_set());
    while i < dirs.len()
        invariant
            i <= dirs@.len(),
            sources_sorted(source_views(out@)),
            source_views(out@).to_set() == offered(dirs@.subrange(0, i as int)).to_set(),
        decreases dirs.len() - i,
    {
        let ghost sub = dirs@.subrange(0, i + 1);
        assert(sub.drop_last() =~= dirs@.subrange(0, i as int));
        assert(sub.last() == dirs@[i as int]);
        add_offered(&mut out, &dirs[i]);
        proof {
            seq_to_set_distributes_over_add(offered(dirs@.subrange(0, i as int)), offered_by(dirs@[i as int]));
        }
        i = i + 1;
    }
    assert(dirs@.subrange(0, dirs@.len() as int) =~= dirs@);
    out
}

/// Whether every offered skill resolves under the skills link directory;
/// `linked` are the names found there.
pub fn skills_linked(sources: &Vec<SkillSource>, linked: &Vec<String>) -> (b: bool)
    ensures
        b == forall|k: int| 0 <= k < sources@.len() ==> string_views(linked@).contains(#[trigger] sources@[k].name@),
{
    let mut i: usize = 0;
    while i < sources.len()
        invariant
            i <= sources@.len(),
            forall|k: int| 0 <= k < i ==> string_views(linked@).contains(#[trigger] sources@[k].name@),
        decreases sources.len() - i,
    {
        if !crate::setup::is_listed(linked, sources[i].name.as_str()) {
            return false;
        }
        i = i + 1;
    }
    true
}


/// How a performed step ends: the code the run exits with, if it stops here,
/// and the message the runner reports on its error stream.
pub struct StepEnd {
    pub exit: Option<i32>,
    pub message: Option<String>,
}

/// A failed submodule init or skill link stops the run: the rest of the
/// sequence needs it. A failed re-deriver install is reported and the run
/// goes on to the completeness check, which states the gap. Everything else goes on.
pub open spec fn step_end(kind: StepKind, ok: bool) -> (Option<i32>, Option<Seq<char>>) {
    if ok {
        (None, None)
    } else {
        match kind {
            StepKind::InitSubmodules => (
                Some(1i32),
                Some("host-lifecycle: submodule init failed; the rest of the sequence needs it"@),
            ),
            StepKind::LinkSkills => (Some(1i32), Some("host-lifecycle: could not link every skill"@)),
            StepKind::InstallRederiver => (
                None,
                Some("host-lifecycle: could not install the re-deriver; the completeness check will report it"@),
            ),
            _ => (None, None),
        }
    }
}

/// What follows a step the runner performed, given whether its work
/// succeeded.
pub fn after_step(kind: StepKind, ok: bool) -> (e: StepEnd)
    ensures
        (e.exit, opt_text(e.message)) == step_end(kind, ok),
{
    if ok {
        return StepEnd { exit: None, message: None };
    }
    match kind {
        StepKind::InitSubmodules => StepEnd {
            exit: Some(1),
            message: Some(String::from_str("host-lifecycle: submodule init failed; the rest of the sequence needs it")),
        },
        StepKind::LinkSkills => StepEnd {
            exit: Some(1),
            message: Some(String::from_str("host-lifecycle: could not link every skill")),
        },
        StepKind::InstallRederiver => StepEnd {
            exit: None,
            message: Some(String::from_str("host-lifecycle: could not install the re-deriver; the completeness check will report it")),
        },
        _ => StepEnd { exit: None, message: None },
    }
}

/// The three lines the build step prints for one owed artifact: nothing is
/// built here; the lines say where it is reproduced and how to build it
/// locally.
pub open spec fn owed_text(o: Owed, root: Seq<char>) -> Seq<Seq<char>> {
    seq![
        "owed     "@ + o.0 + " artifact is absent; it is built in the recorded toolchain, not here"@,
        "         reproduce it: host-lifecycle software --verify-build "@ + root,
        "         or build it locally in "@ + crate::text::path_join(root, o.2) + ": "@ + o.1,
    ]
}

pub open spec fn owed_report(os: Seq<Owed>, root: Seq<char>) -> Seq<Seq<char>>
    decreases os.len(),
{
    if os.len() == 0 {
        Seq::empty()
    } else {
        owed_report(os.drop_last(), root) + owed_text(os.last(), root)
    }
}

fn cat3(a: &str, b: &str, c: &str) -> (r: String)
    ensures
        r@ == a@ + b@ + c@,
{
    let mut r = String::from_str(a);
    r.append(b);
    r.append(c);
    r
}

/// What the build step prints for the artifacts the tree owes; `root` is the
/// tree's directory.
pub fn owed_lines(owed: &Vec<(String, String, String)>, root: &str) -> (out: Vec<String>)
    ensures
        string_views(out@) == owed_report(owed_views(owed@), root@),
{
    let mut out: Vec<String> = Vec::new();
    let mut i: usize = 0;
    assert(string_views(out@) =~= owed_report(owed_views(owed@).subrange(0, 0), root@));
    while i < owed.len()
        invariant
            i <= owed@.len(),
            string_views(out@) == owed_report(owed_views(owed@).subrange(0, i as int), root@),
        decreases owed.len() - i,
    {
        let ghost sub = owed_views(owed@).subrange(0, i + 1);
        assert(sub.drop_last() =~= owed_views(owed@).subrange(0, i as int));
        assert(sub.last() == owed_views(owed@)[i as int]);
        let ghost before = string_views(out@);
        let (name, build, wt) = (&owed[i].0, &owed[i].1, &owed[i].2);
        let first = cat3("owed     ", name.as_str(), " artifact is absent; it is built in the recorded toolchain, not here");
        let second = cat3("         reproduce it: host-lifecycle software --verify-build ", root, "");
        let mut third = String::from_str("         or build it locally in ");
        third.append(crate::text::join_path(root, wt.as_str()).as_str());
        third.append(": ");
        third.append(build.as_str());
        out.push(first);
        out.push(second);
        out.push(third);
        proof { reveal_strlit(""); }
        assert(string_views(out@) =~= before + owed_text(owed_views(owed@)[i as int], root@));
        i = i + 1;
    }
    assert(owed_views(owed@).subrange(0, owed@.len() as int) =~= owed_views(owed@));
    out
}

/// The line the hook step prints: how many targets the commit gate now
/// covers and how many it could not.
pub fn hooks_line(installed: u64, failed: u64) -> (r: String)
    ensures
        r@ == "hooks    "@ + padded(installed as nat, 1) + " target(s) gated, "@ + padded(failed as nat, 1)
            + " could not be"@,
{
    let mut r = String::from_str("hooks    ");
    r.append(decimal_text(installed).as_str());
    r.append(" target(s) gated, ");
    r.append(decimal_text(failed).as_str());
    r.append(" could not be");
    r
}


/// What the link step does for one offered skill.
#[derive(Debug, Clone, Copy, PartialEq, Eq, Structural)]
pub enum SkillLinkAction {
    /// The link is there and resolves to the skill's source.
    Keep,
    /// Something else is there: it is reported and left alone, and the step
    /// fails.
    Conflict,
    /// Nothing resolves there: a stale link is replaced by a relative one.
    Create,
}

/// A link that already exists is kept only when it resolves where the source
/// does (a link into another checkout, or an operator's own directory, would
/// otherwise read as satisfied forever); `None` is a path that does not
/// resolve.
pub open spec fn link_action(dest_exists: bool, dest: Option<Seq<char>>, src: Option<Seq<char>>) -> SkillLinkAction {
    if !dest_exists {
        SkillLinkAction::Create
    } else if dest == src {
        SkillLinkAction::Keep
    } else {
        SkillLinkAction::Conflict
    }
}

pub fn skill_link_action(dest_exists: bool, dest: &Option<String>, src: &Option<String>) -> (a: SkillLinkAction)
    ensures
        a == link_action(dest_exists, opt_text(*dest), opt_text(*src)),
{
    if !dest_exists {
        return SkillLinkAction::Create;
    }
    let same = match (dest, src) {
        (Some(d), Some(s)) => eq_chars(&chars_of(d.as_str()), &chars_of(s.as_str())),
        (None, None) => true,
        _ => false,
    };
    if same {
        SkillLinkAction::Keep
    } else {
        SkillLinkAction::Conflict
    }
}

/// The line the link step prints for a skill: a conflict names what the
/// link should resolve to; a created link names itself. A kept link prints
/// nothing.
pub open spec fn link_line_spec(a: SkillLinkAction, dir: Seq<char>, name: Seq<char>, src: Seq<char>) -> Option<Seq<char>> {
    match a {
        SkillLinkAction::Keep => None,
        SkillLinkAction::Conflict => Some(
            "conflict "@ + dir + "/"@ + name + " exists and does not resolve to "@ + src,
        ),
        SkillLinkAction::Create => Some("link     "@ + dir + "/"@ + name),
    }
}

/// The line for one skill; `dir` is the skills link directory as the tree
/// names it.
pub fn skill_link_line(a: SkillLinkAction, dir: &str, name: &str, src: &str) -> (r: Option<String>)
    ensures
        opt_text(r) == link_line_spec(a, dir@, name@, src@),
{
    match a {
        SkillLinkAction::Keep => None,
        SkillLinkAction::Conflict => {
            let mut r = cat3("conflict ", dir, "/");
            r.append(name);
            r.append(" exists and does not resolve to ");
            r.append(src);
            Some(r)
        },
        SkillLinkAction::Create => {
            let mut r = cat3("link     ", dir, "/");
            r.append(name);
            Some(r)
        },
    }
}

} // verus!
