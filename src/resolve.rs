//! Resolution of a user's token (branch, path, `.` or `@`) to one worktree.
use vstd::prelude::*;

use crate::paths::{canonical_of, canonicalize_allow_missing};
use crate::porcelain::{
    blocks_of, branch_match, first_on_branch, lemma_branch_match, scan_blocks, Block, SpecBlock, models,
};
use crate::text::{clone_opt, opt_seq, seqs};

verus! {

/// Why a token resolves to no removable worktree.
#[derive(Debug, Clone, PartialEq, Eq)]
pub enum ResolveError {
    /// No worktree matches the token, which is kept for the message.
    NotFound(String),
    /// The token names the main worktree, which is never a target.
    MainWorktreeTargeted,
    /// `.` was given outside any worktree; Git's message is kept.
    NotInRepository(String),
}

/// A worktree picked by a token.
#[derive(Debug, Clone, PartialEq, Eq)]
pub struct ResolvedTarget {
    /// The worktree's canonical path, used to tell targets apart.
    pub canonical_path: String,
    /// The worktree's path as Git reported it.
    pub worktree_path: String,
    pub branch_name: Option<String>,
    /// The target is the worktree the command runs in (the token `.`).
    pub is_current: bool,
}

/// Canonical path, reported path, branch, current flag.
pub type TargetModel = (Seq<char>, Seq<char>, Option<Seq<char>>, bool);

/// `NotFound` (with token), main targeted, not in a repository (with message).
pub enum ErrorModel {
    NotFound(Seq<char>),
    Main,
    NotInRepository(Seq<char>),
}

impl ResolvedTarget {
    pub open spec fn model(&self) -> TargetModel {
        (self.canonical_path@, self.worktree_path@, opt_seq(self.branch_name), self.is_current)
    }
}

impl ResolveError {
    pub open spec fn model(&self) -> ErrorModel {
        match self {
            ResolveError::NotFound(t) => ErrorModel::NotFound(t@),
            ResolveError::MainWorktreeTargeted => ErrorModel::Main,
            ResolveError::NotInRepository(m) => ErrorModel::NotInRepository(m@),
        }
    }
}

pub open spec fn result_model(r: Result<ResolvedTarget, ResolveError>) -> Result<TargetModel, ErrorModel> {
    match r {
        Ok(t) => Ok(t.model()),
        Err(e) => Err(e.model()),
    }
}

/// Canonical forms of the paths a resolution compares, read from the disk
/// by the caller: the main worktree, each other worktree in listing order,
/// the token read as a path, and for `.` the current worktree root.
pub struct CanonicalForms {
    pub main: String,
    pub linked: Vec<String>,
    pub token: String,
    /// For `.`: the current worktree root as Git reports it and its
    /// canonical form, or Git's error when there is none.
    pub current: Result<(String, String), String>,
}

pub type FormsModel = (Seq<char>, Seq<Seq<char>>, Seq<char>, Result<(Seq<char>, Seq<char>), Seq<char>>);

impl CanonicalForms {
    pub open spec fn model(&self) -> FormsModel {
        (
            self.main@,
            seqs(self.linked@),
            self.token@,
            match self.current {
                Ok(c) => Ok((c.0@, c.1@)),
                Err(m) => Err(m@),
            },
        )
    }
}

/// Number of worktrees besides the main one.
pub open spec fn linked_count(bs: Seq<SpecBlock>) -> nat {
    if bs.len() == 0 {
        0
    } else {
        (bs.len() - 1) as nat
    }
}

/// `j` is the first other worktree whose canonical path is `c`.
pub open spec fn first_with_path(linked: Seq<Seq<char>>, c: Seq<char>, j: int) -> bool {
    &&& 0 <= j < linked.len()
    &&& linked[j] == c
    &&& forall|k: int| 0 <= k < j ==> linked[k] != c
}

pub open spec fn path_match(linked: Seq<Seq<char>>, c: Seq<char>) -> Option<int> {
    if exists|j: int| first_with_path(linked, c, j) {
        Some(choose|j: int| first_with_path(linked, c, j))
    } else {
        None
    }
}

/// What a token resolves to, given the parsed blocks and the canonical
/// forms. In order: `.` is the current worktree (never the main one); `@`
/// is the main worktree; a branch of another worktree picks it; the main
/// worktree's branch is refused; otherwise the token is a path, refused
/// when it is the main worktree, matched against the other worktrees, or
/// not found.
pub open spec fn resolution(token: Seq<char>, bs: Seq<SpecBlock>, f: FormsModel) -> Result<TargetModel, ErrorModel> {
    if token == "."@ {
        match f.3 {
            Err(m) => Err(ErrorModel::NotInRepository(m)),
            Ok(cur) => if cur.1 == f.0 {
                Err(ErrorModel::Main)
            } else {
                let branch = match path_match(f.1, cur.1) {
                    Some(j) => bs[j + 1].1,
                    None => None,
                };
                Ok((cur.1, cur.0, branch, true))
            },
        }
    } else if token == "@"@ {
        Err(ErrorModel::Main)
    } else {
        match branch_match(bs, token) {
            Some(i) => Ok((f.1[i - 1], bs[i].0, Some(token), false)),
            None => if bs.len() > 0 && bs[0].1 == Some(token) {
                Err(ErrorModel::Main)
            } else if f.2 == f.0 {
                Err(ErrorModel::Main)
            } else {
                match path_match(f.1, f.2) {
                    Some(j) => Ok((f.2, bs[j + 1].0, bs[j + 1].1, false)),
                    None => Err(ErrorModel::NotFound(token)),
                }
            },
        }
    }
}

proof fn lemma_path_match(linked: Seq<Seq<char>>, c: Seq<char>, j: int)
    requires
        first_with_path(linked, c, j),
    ensures
        path_match(linked, c) == Some(j),
{
    let k = choose|k: int| first_with_path(linked, c, k);
    assert(first_with_path(linked, c, k));
    if k < j {
        assert(linked[k] != c);
    } else if k > j {
        assert(linked[j] != c);
    }
}

/// Index of the first of `linked` equal to `c`.
fn find_path(linked: &Vec<String>, c: &String) -> (r: Option<usize>)
    ensures
        match r {
            Some(j) => j < linked@.len() && path_match(seqs(linked@), c@) == Some(
                j as int,
            ),
            None => path_match(seqs(linked@), c@) is None,
        },
{
    let ghost ls = seqs(linked@);
    let mut j: usize = 0;
    while j < linked.len()
        invariant
            ls == seqs(linked@),
            j <= linked@.len(),
            forall|k: int| 0 <= k < j ==> ls[k] != c@,
        decreases linked@.len() - j,
    {
        assert(ls[j as int] == linked@[j as int]@);
        if linked[j] == *c {
            proof {
                lemma_path_match(ls, c@, j as int);
            }
            return Some(j);
        }
        j += 1;
    }
    proof {
        if exists|k: int| first_with_path(ls, c@, k) {
            let k = choose|k: int| first_with_path(ls, c@, k);
            assert(ls[k] != c@);
        }
    }
    None
}

/// Index of the first block after the main one on branch `name`.
fn find_branch(blocks: &Vec<Block>, name: &String) -> (r: Option<usize>)
    ensures
        match r {
            Some(i) => 1 <= i < blocks@.len() && branch_match(models(blocks@), name@) == Some(i as int),
            None => branch_match(models(blocks@), name@) is None,
        },
{
    let ghost bs = models(blocks@);
    let mut i: usize = 1;
    while i < blocks.len()
        invariant
            bs == models(blocks@),
            1 <= i,
            forall|j: int| 1 <= j < i && j < bs.len() ==> bs[j].1 != Some(name@),
        decreases blocks@.len() - i,
    {
        assert(bs[i as int] == blocks@[i as int].model());
        let hit = match &blocks[i].branch {
            Some(b) => {
                let e = *b == *name;
                assert(e ==> bs[i as int].1 == Some(name@));
                e
            },
            None => false,
        };
        if hit {
            proof {
                lemma_branch_match(bs, name@, i as int);
            }
            return Some(i);
        }
        i += 1;
    }
    proof {
        if exists|k: int| first_on_branch(bs, name@, k) {
            let k = choose|k: int| first_on_branch(bs, name@, k);
            assert(bs[k].1 != Some(name@));
        }
    }
    None
}

/// Resolves `name` against the porcelain listing `list_stdout`, comparing
/// paths through the canonical forms in `forms`: see `resolution`.
pub fn resolve_with_forms(name: &str, list_stdout: &str, forms: &CanonicalForms) -> (r: Result<ResolvedTarget, ResolveError>)
    requires
        forms.linked@.len() == linked_count(blocks_of(list_stdout@)),
    ensures
        result_model(r) == resolution(name@, blocks_of(list_stdout@), forms.model()),
{
    let blocks = scan_blocks(list_stdout);
    let ghost bs = blocks_of(list_stdout@);
    let ghost ls = seqs(forms.linked@);
    let token = String::from_str(name);
    let dot = String::from_str(".");
    let at = String::from_str("@");
    if token == dot {
        match &forms.current {
            Err(m) => {
                return Err(ResolveError::NotInRepository(m.clone()));
            },
            Ok(cur) => {
                if cur.1 == forms.main {
                    return Err(ResolveError::MainWorktreeTargeted);
                }
                let branch = match find_path(&forms.linked, &cur.1) {
                    Some(j) => {
                        assert(j < forms.linked@.len());
                        assert(bs.len() == blocks@.len());
                        assert(j + 1 < blocks@.len());
                        let n = blocks.len();
                        assert(j < n - 1);
                        let k = j + 1;
                        assert(bs[k as int] == blocks@[k as int].model());
                        clone_opt(&blocks[k].branch)
                    },
                    None => None,
                };
                return Ok(ResolvedTarget {
                    canonical_path: cur.1.clone(),
                    worktree_path: cur.0.clone(),
                    branch_name: branch,
                    is_current: true,
                });
            },
        }
    }
    if token == at {
        return Err(ResolveError::MainWorktreeTargeted);
    }
    match find_branch(&blocks, &token) {
        Some(i) => {
            assert(bs[i as int] == blocks@[i as int].model());
            assert(ls[i - 1] == forms.linked@[i - 1]@);
            return Ok(ResolvedTarget {
                canonical_path: forms.linked[i - 1].clone(),
                worktree_path: blocks[i].path.clone(),
                branch_name: Some(token),
                is_current: false,
            });
        },
        None => {},
    }
    if blocks.len() > 0 {
        assert(bs[0] == blocks@[0].model());
        let main_branch = match &blocks[0].branch {
            Some(b) => *b == token,
            None => false,
        };
        if main_branch {
            return Err(ResolveError::MainWorktreeTargeted);
        }
    }
    if forms.token == forms.main {
        return Err(ResolveError::MainWorktreeTargeted);
    }
    match find_path(&forms.linked, &forms.token) {
        Some(j) => {
            assert(bs[j + 1] == blocks@[j + 1].model());
            Ok(ResolvedTarget {
                canonical_path: forms.token.clone(),
                worktree_path: blocks[j + 1].path.clone(),
                branch_name: clone_opt(&blocks[j + 1].branch),
                is_current: false,
            })
        },
        None => Err(ResolveError::NotFound(token)),
    }
}


/// Path of the main worktree, empty when there is none.
pub open spec fn main_path(bs: Seq<SpecBlock>) -> Seq<char> {
    if bs.len() > 0 {
        bs[0].0
    } else {
        Seq::<char>::empty()
    }
}

/// `linked` holds, for each worktree after the main one, a canonical form
/// of its path.
pub open spec fn linked_fit(linked: Seq<Seq<char>>, bs: Seq<SpecBlock>, cwd: Seq<char>) -> bool {
    &&& linked.len() == linked_count(bs)
    &&& forall|i: int| 0 <= i < linked.len() ==> canonical_of(#[trigger] linked[i], bs[i + 1].0, cwd)
}

/// `f` holds canonical forms of the main worktree, of the others, and of
/// `name`, and for `.` Git's answer `toplevel` with a canonical form of it.
pub open spec fn forms_fit(
    f: FormsModel,
    bs: Seq<SpecBlock>,
    name: Seq<char>,
    toplevel: Result<Seq<char>, Seq<char>>,
    cwd: Seq<char>,
) -> bool {
    &&& canonical_of(f.0, main_path(bs), cwd)
    &&& linked_fit(f.1, bs, cwd)
    &&& canonical_of(f.2, name, cwd)
    &&& match toplevel {
        Err(m) => f.3 == Err::<(Seq<char>, Seq<char>), Seq<char>>(m),
        Ok(t) => f.3 is Ok && f.3->Ok_0.0 == t && canonical_of(f.3->Ok_0.1, t, cwd),
    }
}

pub open spec fn toplevel_model(t: Result<String, String>) -> Result<Seq<char>, Seq<char>> {
    match t {
        Ok(x) => Ok(x@),
        Err(m) => Err(m@),
    }
}

/// `res` is what `name` resolves to for some canonical forms that fit the
/// listing, `toplevel` and `cwd`.
pub open spec fn resolves_to(
    name: Seq<char>,
    bs: Seq<SpecBlock>,
    toplevel: Result<Seq<char>, Seq<char>>,
    cwd: Seq<char>,
    res: Result<TargetModel, ErrorModel>,
) -> bool {
    exists|f: FormsModel| forms_fit(f, bs, name, toplevel, cwd) && res == #[trigger] resolution(name, bs, f)
}

/// Canonical forms, read from the disk, of the worktrees after the main one.
fn linked_forms(blocks: &Vec<Block>, cwd: &str) -> (r: Vec<String>)
    ensures
        linked_fit(seqs(r@), models(blocks@), cwd@),
{
    let ghost bs = models(blocks@);
    let mut linked: Vec<String> = Vec::new();
    let mut i: usize = 1;
    while i < blocks.len()
        invariant
            bs == models(blocks@),
            1 <= i,
            i <= blocks@.len() || i == 1,
            linked@.len() == i - 1,
            forall|k: int| 0 <= k < linked@.len() ==> canonical_of(#[trigger] seqs(linked@)[k], bs[k + 1].0, cwd@),
        decreases blocks@.len() - i,
    {
        assert(bs[i as int] == blocks@[i as int].model());
        let c = canonicalize_allow_missing(blocks[i].path.as_str(), cwd);
        let ghost before = linked@;
        linked.push(c);
        assert forall|k: int| 0 <= k < linked@.len() implies canonical_of(#[trigger] seqs(linked@)[k], bs[k + 1].0, cwd@) by {
            if k < before.len() {
                assert(seqs(linked@)[k] == seqs(before)[k]);
            }
        }
        i += 1;
    }
    assert(bs.len() == blocks@.len());
    linked
}

/// Resolves `name` against the porcelain listing `list_stdout`, reading
/// canonical paths from the disk: relative paths are taken from `cwd`, and
/// `current_toplevel` is Git's answer for the current worktree root (only
/// read for `.`). Whatever the disk holds, the result is `resolution` for
/// canonical forms of the paths involved.
pub fn resolve_worktree_target(
    name: &str,
    list_stdout: &str,
    current_toplevel: &Result<String, String>,
    cwd: &str,
) -> (r: Result<ResolvedTarget, ResolveError>)
    ensures
        resolves_to(name@, blocks_of(list_stdout@), toplevel_model(*current_toplevel), cwd@, result_model(r)),
{
    let blocks = scan_blocks(list_stdout);
    let ghost bs = blocks_of(list_stdout@);
    let main = if blocks.len() > 0 {
        assert(bs[0] == blocks@[0].model());
        canonicalize_allow_missing(blocks[0].path.as_str(), cwd)
    } else {
        let empty = String::new();
        canonicalize_allow_missing(empty.as_str(), cwd)
    };
    let linked = linked_forms(&blocks, cwd);
    let current = match current_toplevel {
        Ok(t) => Ok((t.clone(), canonicalize_allow_missing(t.as_str(), cwd))),
        Err(m) => Err(m.clone()),
    };
    let forms = CanonicalForms { main, linked, token: canonicalize_allow_missing(name, cwd), current };
    assert(bs.len() == blocks@.len());
    assert(forms.model().1 == seqs(forms.linked@));
    assert(forms_fit(forms.model(), bs, name@, toplevel_model(*current_toplevel), cwd@));
    let r = resolve_with_forms(name, list_stdout, &forms);
    assert(result_model(r) == resolution(name@, bs, forms.model()));
    r
}

/// Resolves every token against one listing, in order; the first token
/// that fails fails the whole batch.
pub fn resolve_all(
    tokens: &Vec<String>,
    list_stdout: &str,
    current_toplevel: &Result<String, String>,
    cwd: &str,
) -> (r: Result<Vec<ResolvedTarget>, ResolveError>)
    ensures
        r is Ok ==> r->Ok_0@.len() == tokens@.len() && forall|i: int|
            0 <= i < tokens@.len() ==> resolves_to(
                tokens@[i]@,
                blocks_of(list_stdout@),
                toplevel_model(*current_toplevel),
                cwd@,
                Ok(#[trigger] r->Ok_0@[i].model()),
            ),
        r is Err ==> exists|i: int|
            0 <= i < tokens@.len() && #[trigger] resolves_to(
                tokens@[i]@,
                blocks_of(list_stdout@),
                toplevel_model(*current_toplevel),
                cwd@,
                Err(r->Err_0.model()),
            ),
{
    let mut out: Vec<ResolvedTarget> = Vec::new();
    let mut i: usize = 0;
    while i < tokens.len()
        invariant
            i <= tokens@.len(),
            out@.len() == i,
            forall|k: int|
                0 <= k < i ==> resolves_to(
                    tokens@[k]@,
                    blocks_of(list_stdout@),
                    toplevel_model(*current_toplevel),
                    cwd@,
                    Ok(#[trigger] out@[k].model()),
                ),
        decreases tokens@.len() - i,
    {
        let res = resolve_worktree_target(tokens[i].as_str(), list_stdout, current_toplevel, cwd);
        match res {
            Ok(t) => {
                out.push(t);
            },
            Err(e) => {
                return Err(e);
            },
        }
        i += 1;
    }
    Ok(out)
}

/// The worktree, the main one excepted, whose canonical path is `target`,
/// given the canonical path of each other worktree in listing order.
pub open spec fn path_lookup(bs: Seq<SpecBlock>, linked: Seq<Seq<char>>, target: Seq<char>) -> Option<Seq<char>> {
    match path_match(linked, target) {
        Some(j) => Some(bs[j + 1].0),
        None => None,
    }
}

/// The worktree, the main one excepted, whose canonical path is
/// `canonical_target`, given the canonical path of each other worktree:
/// see `path_lookup`.
pub fn find_worktree_by_canonical(output: &str, canonical_target: &str, canonical_linked: &Vec<String>) -> (r: Option<String>)
    requires
        canonical_linked@.len() == linked_count(blocks_of(output@)),
    ensures
        opt_seq(r) == path_lookup(blocks_of(output@), seqs(canonical_linked@), canonical_target@),
{
    let blocks = scan_blocks(output);
    let ghost bs = blocks_of(output@);
    assert(bs.len() == blocks@.len());
    let target = String::from_str(canonical_target);
    match find_path(canonical_linked, &target) {
        Some(j) => {
            let n = blocks.len();
            assert(j < n - 1);
            let k = j + 1;
            assert(bs[k as int] == blocks@[k as int].model());
            Some(blocks[k].path.clone())
        },
        None => None,
    }
}

/// Path, as Git reported it, of the worktree other than the main one whose
/// canonical path is `target_path`'s; canonical forms are read from the
/// disk, relative paths taken from `cwd`.
pub fn find_worktree_by_path(output: &str, target_path: &str, cwd: &str) -> (r: Option<String>)
    ensures
        exists|linked: Seq<Seq<char>>, target: Seq<char>|
            linked_fit(linked, blocks_of(output@), cwd@) && canonical_of(target, target_path@, cwd@) && opt_seq(r)
                == #[trigger] path_lookup(blocks_of(output@), linked, target),
{
    let blocks = scan_blocks(output);
    let linked = linked_forms(&blocks, cwd);
    let target = canonicalize_allow_missing(target_path, cwd);
    let r = find_worktree_by_canonical(output, target.as_str(), &linked);
    assert(opt_seq(r) == path_lookup(blocks_of(output@), seqs(linked@), target@));
    r
}

/// A target dropped from a batch because an earlier token already named
/// its worktree; `promoted` when the later token was `.` and the worktree
/// moved to the end of the batch as the current one.
#[derive(Debug, Clone, PartialEq, Eq)]
pub struct DuplicateTarget {
    pub canonical_path: String,
    pub promoted: bool,
}

/// What a batch removal does: the other worktrees first, in input order,
/// then the current worktree, with a warning for each duplicate.
pub struct RemovalPlan {
    pub non_current: Vec<ResolvedTarget>,
    pub current: Option<ResolvedTarget>,
    pub duplicates: Vec<DuplicateTarget>,
}

/// Non-current targets, current target, canonical paths seen, warnings.
pub type PlanModel = (Seq<TargetModel>, Option<TargetModel>, Set<Seq<char>>, Seq<(Seq<char>, bool)>);

/// `nc` without the targets whose canonical path is `c`.
pub open spec fn without_path(nc: Seq<TargetModel>, c: Seq<char>) -> Seq<TargetModel>
    decreases nc.len(),
{
    if nc.len() == 0 {
        seq![]
    } else if nc.last().0 == c {
        without_path(nc.drop_last(), c)
    } else {
        without_path(nc.drop_last(), c).push(nc.last())
    }
}

/// One more resolved target: a current one always becomes the current
/// target, taking its worktree out of the queue if already there; any other
/// is queued unless its worktree was already named.
pub open spec fn plan_step(st: PlanModel, t: TargetModel) -> PlanModel {
    if t.3 {
        if st.2.contains(t.0) {
            (without_path(st.0, t.0), Some(t), st.2, st.3.push((t.0, true)))
        } else {
            (st.0, Some(t), st.2.insert(t.0), st.3)
        }
    } else if st.2.contains(t.0) {
        (st.0, st.1, st.2, st.3.push((t.0, false)))
    } else {
        (st.0.push(t), st.1, st.2.insert(t.0), st.3)
    }
}

pub open spec fn plan_of(ts: Seq<TargetModel>) -> PlanModel
    decreases ts.len(),
{
    if ts.len() == 0 {
        (seq![], None, Set::empty(), seq![])
    } else {
        plan_step(plan_of(ts.drop_last()), ts.last())
    }
}

pub open spec fn target_models(v: Seq<ResolvedTarget>) -> Seq<TargetModel> {
    v.map_values(|t: ResolvedTarget| t.model())
}

pub open spec fn duplicate_models(v: Seq<DuplicateTarget>) -> Seq<(Seq<char>, bool)> {
    v.map_values(|d: DuplicateTarget| (d.canonical_path@, d.promoted))
}

impl RemovalPlan {
    pub open spec fn matches(&self, m: PlanModel) -> bool {
        &&& target_models(self.non_current@) == m.0
        &&& match self.current {
            Some(t) => m.1 == Some(t.model()),
            None => m.1 is None,
        }
        &&& duplicate_models(self.duplicates@) == m.3
    }
}

fn copy_target(t: &ResolvedTarget) -> (r: ResolvedTarget)
    ensures
        r.model() == t.model(),
{
    ResolvedTarget {
        canonical_path: t.canonical_path.clone(),
        worktree_path: t.worktree_path.clone(),
        branch_name: clone_opt(&t.branch_name),
        is_current: t.is_current,
    }
}

fn seen_contains(seen: &Vec<String>, c: &String) -> (r: bool)
    ensures
        r == seqs(seen@).contains(c@),
{
    let ghost sv = seqs(seen@);
    let mut k: usize = 0;
    while k < seen.len()
        invariant
            sv == seqs(seen@),
            k <= seen@.len(),
            forall|j: int| 0 <= j < k ==> sv[j] != c@,
        decreases seen@.len() - k,
    {
        assert(sv[k as int] == seen@[k as int]@);
        if seen[k] == *c {
            assert(sv.contains(c@)) by {
                assert(sv[k as int] == c@);
            }
            return true;
        }
        k += 1;
    }
    false
}

fn drop_path(nc: Vec<ResolvedTarget>, c: &String) -> (r: Vec<ResolvedTarget>)
    ensures
        target_models(r@) == without_path(target_models(nc@), c@),
{
    let ghost src = target_models(nc@);
    let mut out: Vec<ResolvedTarget> = Vec::new();
    let mut k: usize = 0;
    assert(src.take(0) =~= seq![]);
    assert(target_models(out@) =~= without_path(src.take(0), c@));
    while k < nc.len()
        invariant
            src == target_models(nc@),
            k <= nc@.len(),
            target_models(out@) == without_path(src.take(k as int), c@),
        decreases nc@.len() - k,
    {
        assert(src.take(k + 1).drop_last() =~= src.take(k as int));
        assert(src[k as int] == nc@[k as int].model());
        if nc[k].canonical_path != *c {
            let ghost before = out@;
            out.push(copy_target(&nc[k]));
            assert(target_models(out@) =~= target_models(before).push(src[k as int]));
        }
        k += 1;
    }
    assert(src.take(k as int) =~= src);
    out
}

/// Naming the same worktree twice in a batch, neither time as the current
/// one, queues it once and warns once about the second naming.
pub proof fn lemma_duplicate_target_dropped(t: TargetModel)
    requires
        !t.3,
    ensures
        plan_of(seq![t, t]).0 == seq![t],
        plan_of(seq![t, t]).1 is None,
        plan_of(seq![t, t]).3 == seq![(t.0, false)],
{
    let e = Seq::<TargetModel>::empty();
    let one = seq![t];
    let two = seq![t, t];
    assert(two.drop_last() =~= one);
    assert(one.drop_last() =~= e);
    assert(two.last() == t && one.last() == t);
    let s0 = plan_of(e);
    assert(s0.0 == e && s0.1 is None && s0.2 == Set::<Seq<char>>::empty() && s0.3 == Seq::<(Seq<char>, bool)>::empty());
    let s1 = plan_of(one);
    assert(s1 == plan_step(s0, t));
    assert(!s0.2.contains(t.0));
    assert(s1.0 =~= seq![t]);
    assert(s1.2.contains(t.0));
    let s2 = plan_of(two);
    assert(s2 == plan_step(s1, t));
    assert(s2.3 =~= seq![(t.0, false)]);
}

/// No two targets of `s` share a canonical path.
pub open spec fn distinct_paths(s: Seq<TargetModel>) -> bool {
    forall|i: int, j: int| #![trigger s[i], s[j]] 0 <= i < j < s.len() ==> s[i].0 != s[j].0
}

/// No worktree is queued twice, every queued worktree has been seen and is
/// not the current one, and the current worktree, when there is one, is
/// not also queued.
pub open spec fn plan_sound(st: PlanModel) -> bool {
    &&& distinct_paths(st.0)
    &&& forall|i: int| 0 <= i < st.0.len() ==> st.2.contains(#[trigger] st.0[i].0)
    &&& forall|i: int| 0 <= i < st.0.len() ==> !(#[trigger] st.0[i].3)
    &&& match st.1 {
        Some(c) => c.3 && st.2.contains(c.0) && forall|i: int| 0 <= i < st.0.len() ==> #[trigger] st.0[i].0 != c.0,
        None => true,
    }
}

proof fn lemma_without_path(nc: Seq<TargetModel>, c: Seq<char>)
    ensures
        forall|i: int| 0 <= i < without_path(nc, c).len() ==> #[trigger] without_path(nc, c)[i].0 != c,
        forall|i: int|
            0 <= i < without_path(nc, c).len() ==> exists|k: int| 0 <= k < nc.len() && nc[k] == #[trigger] without_path(nc, c)[i],
        distinct_paths(nc) ==> distinct_paths(without_path(nc, c)),
    decreases nc.len(),
{
    if nc.len() > 0 {
        let prev = nc.drop_last();
        lemma_without_path(prev, c);
        let w = without_path(nc, c);
        let pw = without_path(prev, c);
        if distinct_paths(nc) {
            assert forall|i: int, j: int| #![trigger prev[i], prev[j]] 0 <= i < j < prev.len() implies prev[i].0 != prev[j].0 by {
                assert(nc[i] == prev[i] && nc[j] == prev[j]);
            }
        }
        if nc.last().0 != c {
            assert(w == pw.push(nc.last()));
            assert forall|i: int| 0 <= i < w.len() implies exists|k: int| 0 <= k < nc.len() && nc[k] == #[trigger] w[i] by {
                if i < pw.len() {
                    let k = choose|k: int| 0 <= k < prev.len() && prev[k] == pw[i];
                    assert(nc[k] == w[i]);
                } else {
                    assert(nc[nc.len() - 1] == w[i]);
                }
            }
            if distinct_paths(nc) {
                assert forall|i: int, j: int| #![trigger w[i], w[j]] 0 <= i < j < w.len() implies w[i].0 != w[j].0 by {
                    if j < pw.len() {
                        assert(w[i] == pw[i] && w[j] == pw[j]);
                    } else {
                        assert(w[i] == pw[i]);
                        let k = choose|k: int| 0 <= k < prev.len() && prev[k] == pw[i];
                        assert(nc[k] == prev[k]);
                        assert(nc[k].0 != nc[nc.len() - 1].0);
                    }
                }
            }
        } else {
            assert(w == pw);
            assert forall|i: int| 0 <= i < w.len() implies exists|k: int| 0 <= k < nc.len() && nc[k] == #[trigger] w[i] by {
                let k = choose|k: int| 0 <= k < prev.len() && prev[k] == pw[i];
                assert(nc[k] == w[i]);
            }
        }
    }
}

/// Whatever the tokens, a removal plan queues each worktree at most once,
/// only worktrees other than the current one, and never the current
/// worktree as well.
pub proof fn lemma_plan_sound(ts: Seq<TargetModel>)
    ensures
        plan_sound(plan_of(ts)),
    decreases ts.len(),
{
    if ts.len() > 0 {
        lemma_plan_sound(ts.drop_last());
        let st = plan_of(ts.drop_last());
        let t = ts.last();
        let nx = plan_of(ts);
        assert(nx == plan_step(st, t));
        if t.3 && st.2.contains(t.0) {
            lemma_without_path(st.0, t.0);
            let w = without_path(st.0, t.0);
            assert(nx.0 == w);
            assert forall|i: int| 0 <= i < w.len() implies st.2.contains(#[trigger] w[i].0) by {
                let k = choose|k: int| 0 <= k < st.0.len() && st.0[k] == w[i];
                assert(st.2.contains(st.0[k].0));
            }
            assert forall|i: int| 0 <= i < w.len() implies !(#[trigger] w[i].3) by {
                let k = choose|k: int| 0 <= k < st.0.len() && st.0[k] == w[i];
                assert(!st.0[k].3);
            }
        } else if !t.3 && !st.2.contains(t.0) {
            assert(nx.0 == st.0.push(t));
            assert forall|i: int| 0 <= i < nx.0.len() implies nx.2.contains(#[trigger] nx.0[i].0) by {
                if i < st.0.len() {
                    assert(nx.0[i] == st.0[i]);
                }
            }
            assert forall|i: int, j: int| #![trigger nx.0[i], nx.0[j]] 0 <= i < j < nx.0.len() implies nx.0[i].0 != nx.0[j].0 by {
                if j < st.0.len() {
                    assert(nx.0[i] == st.0[i] && nx.0[j] == st.0[j]);
                } else {
                    assert(nx.0[i] == st.0[i]);
                    assert(st.2.contains(st.0[i].0));
                }
            }
            assert forall|i: int| 0 <= i < nx.0.len() implies !(#[trigger] nx.0[i].3) by {
                if i < st.0.len() {
                    assert(nx.0[i] == st.0[i]);
                }
            }
            match st.1 {
                Some(c) => {
                    assert forall|i: int| 0 <= i < nx.0.len() implies #[trigger] nx.0[i].0 != c.0 by {
                        if i < st.0.len() {
                            assert(nx.0[i] == st.0[i]);
                        }
                    }
                },
                None => {},
            }
        } else if t.3 {
            assert forall|i: int| 0 <= i < nx.0.len() implies #[trigger] nx.0[i].0 != t.0 by {
                assert(st.2.contains(st.0[i].0));
            }
        }
    }
}

/// Orders a batch of resolved targets for removal: see `plan_of`.
pub fn plan_removals(targets: &Vec<ResolvedTarget>) -> (r: RemovalPlan)
    ensures
        r.matches(plan_of(target_models(targets@))),
{
    let ghost ts = target_models(targets@);
    let mut non_current: Vec<ResolvedTarget> = Vec::new();
    let mut current: Option<ResolvedTarget> = None;
    let mut seen: Vec<String> = Vec::new();
    let mut duplicates: Vec<DuplicateTarget> = Vec::new();
    let mut i: usize = 0;
    assert(ts.take(0) =~= seq![]);
    assert(target_models(non_current@) =~= seq![]);
    assert(duplicate_models(duplicates@) =~= seq![]);
    while i < targets.len()
        invariant
            ts == target_models(targets@),
            i <= targets@.len(),
            (RemovalPlan { non_current, current, duplicates }).matches(plan_of(ts.take(i as int))),
            forall|x: Seq<char>|
                plan_of(ts.take(i as int)).2.contains(x) <==> #[trigger] seqs(seen@).contains(x),
        decreases targets@.len() - i,
    {
        let ghost st = plan_of(ts.take(i as int));
        assert(ts.take(i + 1).drop_last() =~= ts.take(i as int));
        assert(ts[i as int] == targets@[i as int].model());
        let t = &targets[i];
        let ghost sv = seqs(seen@);
        let known = seen_contains(&seen, &t.canonical_path);
        assert(known == st.2.contains(t.canonical_path@));
        if t.is_current {
            if known {
                non_current = drop_path(non_current, &t.canonical_path);
                let ghost before = duplicates@;
                duplicates.push(DuplicateTarget { canonical_path: t.canonical_path.clone(), promoted: true });
                assert(duplicate_models(duplicates@) =~= duplicate_models(before).push((t.canonical_path@, true)));
            } else {
                seen.push(t.canonical_path.clone());
                assert(seqs(seen@) =~= sv.push(t.canonical_path@));
                assert forall|x: Seq<char>| st.2.insert(t.canonical_path@).contains(x) <==> #[trigger] sv.push(t.canonical_path@).contains(x) by {
                    if sv.push(t.canonical_path@).contains(x) && x != t.canonical_path@ {
                        let k = choose|k: int| 0 <= k < sv.len() + 1 && sv.push(t.canonical_path@)[k] == x;
                        assert(sv[k] == x);
                    }
                    if sv.contains(x) {
                        let k = choose|k: int| 0 <= k < sv.len() && sv[k] == x;
                        assert(sv.push(t.canonical_path@)[k] == x);
                    }
                    if x == t.canonical_path@ {
                        assert(sv.push(t.canonical_path@)[sv.len() as int] == x);
                    }
                }
            }
            current = Some(copy_target(t));
        } else if known {
            let ghost before = duplicates@;
            duplicates.push(DuplicateTarget { canonical_path: t.canonical_path.clone(), promoted: false });
            assert(duplicate_models(duplicates@) =~= duplicate_models(before).push((t.canonical_path@, false)));
        } else {
            seen.push(t.canonical_path.clone());
            assert(seqs(seen@) =~= sv.push(t.canonical_path@));
            assert forall|x: Seq<char>| st.2.insert(t.canonical_path@).contains(x) <==> #[trigger] sv.push(t.canonical_path@).contains(x) by {
                if sv.push(t.canonical_path@).contains(x) && x != t.canonical_path@ {
                    let k = choose|k: int| 0 <= k < sv.len() + 1 && sv.push(t.canonical_path@)[k] == x;
                    assert(sv[k] == x);
                }
                if sv.contains(x) {
                    let k = choose|k: int| 0 <= k < sv.len() && sv[k] == x;
                    assert(sv.push(t.canonical_path@)[k] == x);
                }
                if x == t.canonical_path@ {
                    assert(sv.push(t.canonical_path@)[sv.len() as int] == x);
                }
            }
            let ghost before = non_current@;
            non_current.push(copy_target(t));
            assert(target_models(non_current@) =~= target_models(before).push(ts[i as int]));
        }
        i += 1;
    }
    assert(ts.take(i as int) =~= ts);
    RemovalPlan { non_current, current, duplicates }
}

} // verus!
