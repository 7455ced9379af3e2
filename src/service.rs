//! Interfaces of the outside tools and the service that drives them when a
//! worktree is created.
use vstd::prelude::*;

use crate::config::HookActions;
use crate::integrations::{decimal, decimal_text, FzfItem};

verus! {

/// Worktree operations of Git.
pub trait GitClient {
    /// Creates a worktree on a new branch, from `start_point` when given.
    fn create_worktree(&self, branch: &str, path: &str, start_point: Option<&str>) -> Result<(), String>;

    /// The porcelain listing of all worktrees.
    fn list_worktrees(&self) -> Result<String, String>;

    fn remove_worktree(&self, path: &str) -> Result<(), String>;

    fn remove_branch(&self, branch: &str) -> Result<(), String>;
}

/// Runs hook actions in a worktree, taking files from `source_path`.
pub trait HookExecutor {
    fn execute_hooks(&self, actions: &HookActions, worktree_path: &str, source_path: &str) -> Result<(), String>;
}

/// Adds directories to the zoxide database.
pub trait ZoxideClient {
    fn add(&self, path: &str) -> Result<(), String>;
}

/// Lets the user pick among items; returns the values picked (none when
/// the user cancels).
pub trait FzfPicker {
    fn pick(&self, items: &[FzfItem], multi: bool) -> Result<Vec<String>, String>;
}

/// Opens tmux windows and panes.
pub trait TmuxLauncher {
    /// Whether tmux can be used from here.
    fn detect(&self) -> Result<(), String>;

    fn create_window(&self, path: &str, branch: &str) -> Result<(), String>;

    fn create_pane(&self, path: &str) -> Result<(), String>;
}

/// A GitHub issue.
pub struct IssueInfo {
    pub number: u32,
    pub title: String,
    pub url: String,
    /// GitHub lists pull requests as issues too.
    pub is_pull_request: bool,
}

/// A GitHub pull request.
pub struct PrInfo {
    pub number: u32,
    pub title: String,
    pub url: String,
    pub head_ref_name: String,
    /// Opened from a fork.
    pub is_cross_repository: bool,
}

/// Looks up GitHub issues and pull requests.
pub trait GhClient {
    fn issue_info(&self, number: u32) -> Result<IssueInfo, String>;

    fn pr_info(&self, number: u32) -> Result<PrInfo, String>;

    fn is_available(&self) -> bool;
}

/// What a GitHub number refers to.
pub enum GithubRef {
    Issue(IssueInfo),
    Pull(PrInfo),
}

/// Looks a GitHub number up as an issue first; a pull request (GitHub lists
/// those as issues too) or an unknown issue is then looked up as a pull
/// request. The error names the number.
pub fn lookup_github_ref<G: GhClient>(gh: &G, number: u32) -> (r: Result<GithubRef, String>)
    ensures
        r is Err ==> exists|tail: Seq<char>| r->Err_0@ == "#"@ + decimal(number as nat) + tail,
        r matches Ok(GithubRef::Issue(i)) ==> !i.is_pull_request,
{
    let issue_failed = match gh.issue_info(number) {
        Ok(issue) => {
            if !issue.is_pull_request {
                return Ok(GithubRef::Issue(issue));
            }
            false
        },
        Err(_) => true,
    };
    match gh.pr_info(number) {
        Ok(pr) => Ok(GithubRef::Pull(pr)),
        Err(_) => {
            let head = String::from_str("#").concat(decimal_text(number).as_str());
            let tail = if issue_failed {
                " is not a valid issue or pull request.\nPlease check the number and try again."
            } else {
                " is not a valid pull request.\nPlease check the number and try again."
            };
            Err(head.concat(tail))
        },
    }
}

/// Adds `path` to zoxide when the integration is enabled and zoxide is
/// installed; a missing zoxide is no error.
pub fn add_to_zoxide_if_enabled<Z: ZoxideClient>(client: &Z, path: &str, enabled: bool, available: bool) -> (r: Result<(), String>)
    ensures
        !(enabled && available) ==> r is Ok,
{
    if !enabled || !available {
        return Ok(());
    }
    client.add(path)
}

/// Creates worktrees with Git, runs their create hooks and registers them
/// with zoxide.
pub struct WorktreeService<G: GitClient, H: HookExecutor, Z: ZoxideClient> {
    pub git_client: G,
    pub hook_executor: H,
    pub zoxide_client: Z,
}

impl<G: GitClient, H: HookExecutor, Z: ZoxideClient> WorktreeService<G, H, Z> {
    pub fn new(git_client: G, hook_executor: H, zoxide_client: Z) -> (r: Self)
        ensures
            r.git_client == git_client,
            r.hook_executor == hook_executor,
            r.zoxide_client == zoxide_client,
    {
        WorktreeService { git_client, hook_executor, zoxide_client }
    }

    /// Creates the worktree, then runs the create hooks (files come from
    /// `repo_root`), then adds it to zoxide when enabled; stops at the first
    /// failure. Returns the worktree path.
    pub fn create_worktree(
        &self,
        branch: &str,
        worktree_path: &str,
        start_point: Option<&str>,
        repo_root: &str,
        hooks: &HookActions,
        zoxide_enabled: bool,
    ) -> (r: Result<String, String>)
        ensures
            r is Ok ==> r->Ok_0@ == worktree_path@,
    {
        match self.git_client.create_worktree(branch, worktree_path, start_point) {
            Ok(()) => {},
            Err(e) => {
                return Err(e);
            },
        }
        match self.hook_executor.execute_hooks(hooks, worktree_path, repo_root) {
            Ok(()) => {},
            Err(e) => {
                return Err(e);
            },
        }
        if zoxide_enabled {
            match self.zoxide_client.add(worktree_path) {
                Ok(()) => {},
                Err(e) => {
                    return Err(e);
                },
            }
        }
        Ok(String::from_str(worktree_path))
    }
}

} // verus!
