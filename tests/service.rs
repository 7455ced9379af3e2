use ofsht::config::HookActions;
use ofsht::service::{
    lookup_github_ref, GhClient, GitClient, GithubRef, HookExecutor, IssueInfo, PrInfo, WorktreeService, ZoxideClient,
};

struct MockGitClient {
    should_fail: bool,
}

impl GitClient for MockGitClient {
    fn create_worktree(&self, _branch: &str, _path: &str, _start_point: Option<&str>) -> Result<(), String> {
        if self.should_fail {
            return Err("Mock git failure".to_string());
        }
        Ok(())
    }

    fn list_worktrees(&self) -> Result<String, String> {
        Ok(String::new())
    }

    fn remove_worktree(&self, _path: &str) -> Result<(), String> {
        Ok(())
    }

    fn remove_branch(&self, _branch: &str) -> Result<(), String> {
        Ok(())
    }
}

struct MockHookExecutor {
    should_fail: bool,
}

impl HookExecutor for MockHookExecutor {
    fn execute_hooks(&self, _actions: &HookActions, _worktree_path: &str, _source_path: &str) -> Result<(), String> {
        if self.should_fail {
            return Err("Mock hook failure".to_string());
        }
        Ok(())
    }
}

struct MockZoxideClient {
    should_fail: bool,
}

impl ZoxideClient for MockZoxideClient {
    fn add(&self, _path: &str) -> Result<(), String> {
        if self.should_fail {
            return Err("Mock zoxide failure".to_string());
        }
        Ok(())
    }
}

fn service(git: bool, hook: bool, zoxide: bool) -> WorktreeService<MockGitClient, MockHookExecutor, MockZoxideClient> {
    WorktreeService::new(
        MockGitClient { should_fail: git },
        MockHookExecutor { should_fail: hook },
        MockZoxideClient { should_fail: zoxide },
    )
}

#[test]
fn test_create_worktree_success() {
    let service = service(false, false, false);
    let hooks = HookActions::default();
    let result = service.create_worktree("feature", "/test/worktree", None, "/test/repo", &hooks, true);
    assert!(result.is_ok());
    assert_eq!(result.unwrap(), "/test/worktree");
}

#[test]
fn test_create_worktree_with_start_point() {
    let service = service(false, false, false);
    let hooks = HookActions::default();
    let result = service.create_worktree("feature", "/test/worktree", Some("main"), "/test/repo", &hooks, false);
    assert!(result.is_ok());
    assert_eq!(result.unwrap(), "/test/worktree");
}

#[test]
fn test_create_worktree_git_failure() {
    let service = service(true, false, false);
    let hooks = HookActions::default();
    let result = service.create_worktree("feature", "/test/worktree", None, "/test/repo", &hooks, true);
    assert!(result.is_err());
    assert!(result.unwrap_err().to_string().contains("Mock git failure"));
}

#[test]
fn test_create_worktree_hook_failure() {
    let service = service(false, true, false);
    let hooks = HookActions::default();
    let result = service.create_worktree("feature", "/test/worktree", None, "/test/repo", &hooks, true);
    assert!(result.is_err());
    assert!(result.unwrap_err().to_string().contains("Mock hook failure"));
}

#[test]
fn test_create_worktree_zoxide_failure() {
    let service = service(false, false, true);
    let hooks = HookActions::default();
    let result = service.create_worktree("feature", "/test/worktree", None, "/test/repo", &hooks, true);
    assert!(result.is_err());
    assert!(result.unwrap_err().to_string().contains("Mock zoxide failure"));
}

#[test]
fn test_create_worktree_zoxide_disabled() {
    let service = service(false, false, true);
    let hooks = HookActions::default();
    let result = service.create_worktree("feature", "/test/worktree", None, "/test/repo", &hooks, false);
    assert!(result.is_ok());
    assert_eq!(result.unwrap(), "/test/worktree");
}

struct MockGh {
    issue: Option<bool>,
    pr: bool,
}

impl GhClient for MockGh {
    fn issue_info(&self, number: u32) -> Result<IssueInfo, String> {
        match self.issue {
            Some(is_pr) => Ok(IssueInfo { number, title: "t".to_string(), url: String::new(), is_pull_request: is_pr }),
            None => Err("no issue".to_string()),
        }
    }

    fn pr_info(&self, number: u32) -> Result<PrInfo, String> {
        if self.pr {
            Ok(PrInfo {
                number,
                title: "p".to_string(),
                url: String::new(),
                head_ref_name: "fix".to_string(),
                is_cross_repository: false,
            })
        } else {
            Err("no pr".to_string())
        }
    }

    fn is_available(&self) -> bool {
        true
    }
}

#[test]
fn github_lookup_order() {
    assert!(matches!(lookup_github_ref(&MockGh { issue: Some(false), pr: true }, 5), Ok(GithubRef::Issue(_))));
    assert!(matches!(lookup_github_ref(&MockGh { issue: Some(true), pr: true }, 5), Ok(GithubRef::Pull(_))));
    assert!(matches!(lookup_github_ref(&MockGh { issue: None, pr: true }, 5), Ok(GithubRef::Pull(_))));
    match lookup_github_ref(&MockGh { issue: None, pr: false }, 42) {
        Err(e) => assert!(e.starts_with("#42 is not a valid issue or pull request")),
        Ok(_) => panic!("expected an error"),
    }
    match lookup_github_ref(&MockGh { issue: Some(true), pr: false }, 7) {
        Err(e) => assert!(e.starts_with("#7 is not a valid pull request")),
        Ok(_) => panic!("expected an error"),
    }
}
