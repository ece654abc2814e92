//! The software recipe as the library reads it: each component, the branches
//! it declares, and the builds it records. Reading `.host-software` is the
//! program's part; the library takes the parsed components.

use vstd::prelude::*;
use vstd::string::*;

use crate::text::{chars_of, eq_chars, string_views};

verus! {

/// One explicit `worktree =` line of a component: a branch, optionally bound
/// to one platform.
#[derive(Debug, Clone, PartialEq, Eq)]
pub struct WorktreeLine {
    pub branch: String,
    pub host: Option<String>,
}

/// One per-platform `[build …]` entry of a component.
#[derive(Debug, Clone, PartialEq, Eq)]
pub struct PlatformBuild {
    pub platform: String,
    pub build: Option<String>,
    pub toolchain: Option<String>,
    pub deploy: Option<String>,
    pub artifact: Option<(String, String)>,
    pub repro_exempt: Option<String>,
    pub attest_host: Option<String>,
}

/// One component of the recipe.
#[derive(Debug, Clone, PartialEq, Eq)]
pub struct Software {
    pub name: String,
    pub url: String,
    pub pin: String,
    pub branch: String,
    pub worktrees: Vec<String>,
    pub lines: Vec<WorktreeLine>,
    pub build: Option<String>,
    pub toolchain: Option<String>,
    pub deploy: Option<String>,
    pub artifact: Option<(String, String)>,
    pub repro_exempt: Option<String>,
    pub hooks: Option<String>,
    pub deps_bundle: Option<String>,
    pub builds: Vec<PlatformBuild>,
}

/// One build a component records: the per-platform entries when it has any,
/// else the component's own fields.
pub struct BuildView {
    pub platform: Option<String>,
    pub build: Option<String>,
    pub artifact: Option<(String, String)>,
    pub attest_host: Option<String>,
}

pub open spec fn opt_text(o: Option<String>) -> Option<Seq<char>> {
    match o {
        Some(s) => Some(s@),
        None => None,
    }
}

pub open spec fn opt_pair(o: Option<(String, String)>) -> Option<(Seq<char>, Seq<char>)> {
    match o {
        Some((a, b)) => Some((a@, b@)),
        None => None,
    }
}

pub fn clone_text(o: &Option<String>) -> (r: Option<String>)
    ensures
        opt_text(r) == opt_text(*o),
{
    match o {
        Some(s) => Some(s.clone()),
        None => None,
    }
}

pub fn clone_pair(o: &Option<(String, String)>) -> (r: Option<(String, String)>)
    ensures
        opt_pair(r) == opt_pair(*o),
{
    match o {
        Some((a, b)) => Some((a.clone(), b.clone())),
        None => None,
    }
}

/// The path of a component's worktree on a branch, relative to the root.
pub open spec fn worktree_rel(name: Seq<char>, branch: Seq<char>) -> Seq<char> {
    "software/"@ + name + "/"@ + branch
}

pub fn worktree_label(name: &str, branch: &str) -> (r: String)
    ensures
        r@ == worktree_rel(name@, branch@),
{
    let mut s = String::from_str("software/");
    s.append(name);
    s.append("/");
    s.append(branch);
    s
}

/// A worktree line bound to another platform does not apply here.
pub open spec fn off_platform(host: Option<Seq<char>>, os: Seq<char>) -> bool {
    match host {
        Some(h) => h != os,
        None => false,
    }
}

pub fn off_platform_exec(host: &Option<String>, os: &str) -> (b: bool)
    ensures
        b == off_platform(opt_text(*host), os@),
{
    match host {
        Some(h) => !eq_chars(&chars_of(h.as_str()), &chars_of(os)),
        None => false,
    }
}

impl Software {
    /// The builds this component records.
    pub fn builds_view(&self) -> (out: Vec<BuildView>)
        ensures
            self.builds@.len() == 0 ==> out@.len() == 1 && opt_text(out@[0].platform) is None
                && opt_text(out@[0].build) == opt_text(self.build) && opt_pair(out@[0].artifact) == opt_pair(
                self.artifact,
            ) && opt_text(out@[0].attest_host) is None,
            self.builds@.len() > 0 ==> out@.len() == self.builds@.len() && forall|k: int|
                0 <= k < out@.len() ==> opt_text((#[trigger] out@[k]).platform) == Some(self.builds@[k].platform@)
                    && opt_text(out@[k].build) == opt_text(self.builds@[k].build) && opt_pair(out@[k].artifact)
                    == opt_pair(self.builds@[k].artifact) && opt_text(out@[k].attest_host) == opt_text(
                    self.builds@[k].attest_host,
                ),
    {
        let mut out: Vec<BuildView> = Vec::new();
        if self.builds.len() == 0 {
            out.push(BuildView {
                platform: None,
                build: clone_text(&self.build),
                artifact: clone_pair(&self.artifact),
                attest_host: None,
            });
            return out;
        }
        let mut i: usize = 0;
        while i < self.builds.len()
            invariant
                i <= self.builds@.len(),
                out@.len() == i,
                forall|k: int|
                    0 <= k < i ==> opt_text((#[trigger] out@[k]).platform) == Some(self.builds@[k].platform@)
                        && opt_text(out@[k].build) == opt_text(self.builds@[k].build) && opt_pair(out@[k].artifact)
                        == opt_pair(self.builds@[k].artifact) && opt_text(out@[k].attest_host) == opt_text(
                        self.builds@[k].attest_host,
                    ),
            decreases self.builds.len() - i,
        {
            let b = &self.builds[i];
            out.push(BuildView {
                platform: Some(b.platform.clone()),
                build: clone_text(&b.build),
                artifact: clone_pair(&b.artifact),
                attest_host: clone_text(&b.attest_host),
            });
            i = i + 1;
        }
        out
    }
}

/// The branches a component declares, in order: its canonical branch, each
/// bare `worktrees =` branch, and each explicit line's branch.
pub open spec fn declared_branches(s: Software) -> Seq<Seq<char>> {
    seq![s.branch@] + string_views(s.worktrees@) + s.lines@.map_values(|w: WorktreeLine| w.branch@)
}

/// The worktree paths the recipe implies, repo-relative, in recipe order.
pub open spec fn recipe_worktrees(recipe: Seq<Software>) -> Seq<Seq<char>>
    decreases recipe.len(),
{
    if recipe.len() == 0 {
        Seq::empty()
    } else {
        let s = recipe.last();
        recipe_worktrees(recipe.drop_last()) + declared_branches(s).map_values(|b: Seq<char>| worktree_rel(s.name@, b))
    }
}

fn push_rel(out: &mut Vec<String>, name: &str, branch: &str)
    ensures
        string_views(final(out)@) == string_views(old(out)@).push(worktree_rel(name@, branch@)),
{
    let ghost b = string_views(out@);
    let l = worktree_label(name, branch);
    out.push(l);
    assert(string_views(out@) =~= b.push(worktree_rel(name@, branch@)));
}

/// Every worktree path the recipe implies, repo-relative, in recipe order;
/// which of them are present is for the program to look up.
pub fn worktree_candidates(recipe: &Vec<Software>) -> (out: Vec<String>)
    ensures
        string_views(out@) == recipe_worktrees(recipe@),
{
    let mut out: Vec<String> = Vec::new();
    let mut i: usize = 0;
    assert(recipe@.subrange(0, 0) =~= Seq::<Software>::empty());
    while i < recipe.len()
        invariant
            i <= recipe@.len(),
            string_views(out@) == recipe_worktrees(recipe@.subrange(0, i as int)),
        decreases recipe.len() - i,
    {
        let s = &recipe[i];
        let ghost start = string_views(out@);
        let ghost bs = declared_branches(*s);
        let ghost name = s.name@;
        push_rel(&mut out, s.name.as_str(), s.branch.as_str());
        let mut j: usize = 0;
        while j < s.worktrees.len()
            invariant
                j <= s.worktrees@.len(),
                bs == declared_branches(*s),
                name == s.name@,
                string_views(out@) == start + bs.subrange(0, 1 + j as int).map_values(|b: Seq<char>| worktree_rel(name, b)),
            decreases s.worktrees.len() - j,
        {
            push_rel(&mut out, s.name.as_str(), s.worktrees[j].as_str());
            assert(bs[1 + j as int] == s.worktrees@[j as int]@);
            assert(string_views(out@) =~= start + bs.subrange(0, 2 + j as int).map_values(|b: Seq<char>| worktree_rel(name, b)));
            j = j + 1;
        }
        let mut k: usize = 0;
        let nw = s.worktrees.len();
        while k < s.lines.len()
            invariant
                k <= s.lines@.len(),
                nw == s.worktrees@.len(),
                bs == declared_branches(*s),
                name == s.name@,
                string_views(out@) == start + bs.subrange(0, 1 + nw + k as int).map_values(|b: Seq<char>| worktree_rel(name, b)),
            decreases s.lines.len() - k,
        {
            push_rel(&mut out, s.name.as_str(), s.lines[k].branch.as_str());
            assert(bs[1 + nw + k as int] == s.lines@[k as int].branch@);
            assert(string_views(out@) =~= start + bs.subrange(0, 2 + nw + k as int).map_values(|b: Seq<char>| worktree_rel(name, b)));
            k = k + 1;
        }
        let ghost sub = recipe@.subrange(0, i + 1);
        assert(sub.drop_last() =~= recipe@.subrange(0, i as int));
        assert(sub.last() == *s);
        assert(bs.subrange(0, 1 + nw + s.lines@.len()) =~= bs);
        i = i + 1;
    }
    assert(recipe@.subrange(0, recipe@.len() as int) =~= recipe@);
    out
}

} // verus!
