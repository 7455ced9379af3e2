use ofsht::config::HookActions;
use ofsht::integrations::{
    build_issue_branch, build_worktree_items, detect_pattern_kind, parse_u32, sanitize_window_name, BranchInput,
    FzfItem, PatternKind,
};
use ofsht::service::{add_to_zoxide_if_enabled, FzfPicker, GitClient, HookExecutor, ZoxideClient};

#[test]
fn test_parse_github_number() {
    assert_eq!(BranchInput::parse("#123"), BranchInput::Github(123));
}

#[test]
fn test_parse_plain_branch() {
    assert_eq!(BranchInput::parse("feature-branch"), BranchInput::Plain("feature-branch".to_string()));
}

#[test]
fn test_parse_branch_with_hash_in_middle() {
    assert_eq!(BranchInput::parse("feature-#42"), BranchInput::Plain("feature-#42".to_string()));
}

#[test]
fn test_parse_single_digit() {
    assert_eq!(BranchInput::parse("#1"), BranchInput::Github(1));
}

#[test]
fn test_parse_large_number() {
    assert_eq!(BranchInput::parse("#99999"), BranchInput::Github(99999));
}

#[test]
fn parse_number_edge_cases() {
    assert_eq!(BranchInput::parse("#"), BranchInput::Plain("#".to_string()));
    assert_eq!(BranchInput::parse("#4294967295"), BranchInput::Github(4294967295));
    assert_eq!(BranchInput::parse("#4294967296"), BranchInput::Plain("#4294967296".to_string()));
    assert_eq!(BranchInput::parse("#+7"), BranchInput::Github(7));
    assert_eq!(BranchInput::parse("#1a"), BranchInput::Plain("#1a".to_string()));
    assert_eq!(parse_u32("007"), Some(7));
    assert_eq!(parse_u32("+"), None);
}

#[test]
fn test_build_issue_branch() {
    assert_eq!(build_issue_branch(123), "issue-123");
}

#[test]
fn test_build_issue_branch_single_digit() {
    assert_eq!(build_issue_branch(1), "issue-1");
}

#[test]
fn test_build_issue_branch_large_number() {
    assert_eq!(build_issue_branch(99999), "issue-99999");
}

#[test]
fn issue_branch_zero_and_max() {
    assert_eq!(build_issue_branch(0), "issue-0");
    assert_eq!(build_issue_branch(u32::MAX), "issue-4294967295");
}

#[test]
fn test_sanitize_window_name_simple() {
    assert_eq!(sanitize_window_name("feature"), "feature");
}

#[test]
fn test_sanitize_window_name_with_slash() {
    assert_eq!(sanitize_window_name("feature/login"), "feature·login");
}

#[test]
fn test_sanitize_window_name_with_space() {
    assert_eq!(sanitize_window_name("feature bug fix"), "feature·bug·fix");
}

#[test]
fn test_sanitize_window_name_mixed() {
    assert_eq!(sanitize_window_name("feat/bug fix"), "feat·bug·fix");
}

#[test]
fn test_sanitize_window_name_long() {
    let long_name = "a".repeat(100);
    let result = sanitize_window_name(&long_name);
    assert_eq!(result.len(), 50);
}

#[test]
fn test_sanitize_window_name_empty() {
    assert_eq!(sanitize_window_name(""), "worktree");
}

#[test]
fn test_sanitize_window_name_only_special_chars() {
    assert_eq!(sanitize_window_name("///"), "···");
}

#[test]
fn sanitize_window_name_keeps_fifty_characters() {
    let name = "/".repeat(60);
    assert_eq!(sanitize_window_name(&name).chars().count(), 50);
}

#[test]
fn test_fzf_item_creation() {
    let item = FzfItem {
        display: "feature-branch /path/to/worktree".to_string(),
        value: "/path/to/worktree".to_string(),
    };
    assert_eq!(item.display, "feature-branch /path/to/worktree");
    assert_eq!(item.value, "/path/to/worktree");
}

struct MockFzfPicker {
    return_values: Vec<String>,
    should_fail: bool,
}

impl FzfPicker for MockFzfPicker {
    fn pick(&self, _items: &[FzfItem], _multi: bool) -> Result<Vec<String>, String> {
        if self.should_fail {
            return Err("Mock fzf failure".to_string());
        }
        Ok(self.return_values.clone())
    }
}

#[test]
fn test_mock_fzf_picker_success() {
    let picker = MockFzfPicker { return_values: vec!["/path/to/worktree".to_string()], should_fail: false };
    let items = vec![FzfItem { display: "test".to_string(), value: "/path/to/worktree".to_string() }];
    let result = picker.pick(&items, false);
    assert!(result.is_ok());
    assert_eq!(result.unwrap(), vec!["/path/to/worktree"]);
}

#[test]
fn test_mock_fzf_picker_failure() {
    let picker = MockFzfPicker { return_values: Vec::new(), should_fail: true };
    let items = vec![FzfItem { display: "test".to_string(), value: "/test".to_string() }];
    assert!(picker.pick(&items, false).is_err());
}

#[test]
fn test_mock_fzf_picker_cancel() {
    let picker = MockFzfPicker { return_values: Vec::new(), should_fail: false };
    let items = vec![FzfItem { display: "test".to_string(), value: "/test".to_string() }];
    let result = picker.pick(&items, false);
    assert!(result.is_ok());
    assert!(result.unwrap().is_empty());
}

#[test]
fn test_build_worktree_items_basic() {
    let porcelain = r"worktree /path/to/main
HEAD abc123
branch refs/heads/main

worktree /path/to/feature
HEAD def456
branch refs/heads/feature-branch

";
    let items = build_worktree_items(porcelain);
    assert_eq!(items.len(), 2);
    assert_eq!(items[0].value, "/path/to/main");
    assert!(items[0].display.contains("main"));
    assert_eq!(items[1].value, "/path/to/feature");
    assert!(items[1].display.contains("feature-branch"));
    assert_eq!(items[1].display, "feature-branch /path/to/feature");
}

#[test]
fn test_build_worktree_items_detached() {
    let porcelain = r"worktree /path/to/detached
HEAD abc123
detached

";
    let items = build_worktree_items(porcelain);
    assert_eq!(items.len(), 1);
    assert_eq!(items[0].value, "/path/to/detached");
    assert!(items[0].display.contains("(detached)"));
    assert_eq!(items[0].display, "(detached) /path/to/detached");
}

#[test]
fn worktree_items_trim_lines_and_last_block() {
    let porcelain = "  worktree /a  \n\tbranch refs/heads/x\n";
    let items = build_worktree_items(porcelain);
    assert_eq!(items, vec![FzfItem { display: "x /a".to_string(), value: "/a".to_string() }]);
}

#[test]
fn test_detect_pattern_kind_literal() {
    assert_eq!(detect_pattern_kind("file.txt"), PatternKind::Literal);
    assert_eq!(detect_pattern_kind("dir/file.txt"), PatternKind::Literal);
    assert_eq!(detect_pattern_kind(".env.local"), PatternKind::Literal);
    assert_eq!(detect_pattern_kind("config/test.toml"), PatternKind::Literal);
}

#[test]
fn test_detect_pattern_kind_glob() {
    assert_eq!(detect_pattern_kind("*.txt"), PatternKind::Glob);
    assert_eq!(detect_pattern_kind("dir/**/*.rs"), PatternKind::Glob);
    assert_eq!(detect_pattern_kind(".env.*"), PatternKind::Glob);
    assert_eq!(detect_pattern_kind("file?.txt"), PatternKind::Glob);
    assert_eq!(detect_pattern_kind("file[0-9].txt"), PatternKind::Glob);
    assert_eq!(detect_pattern_kind("file{1,2}.txt"), PatternKind::Glob);
}

struct MockHookExecutor {
    should_fail: bool,
}

impl HookExecutor for MockHookExecutor {
    fn execute_hooks(&self, _actions: &HookActions, _worktree_path: &str, _source_path: &str) -> Result<(), String> {
        if self.should_fail {
            return Err("Mock hook executor failure".to_string());
        }
        Ok(())
    }
}

#[test]
fn test_mock_hook_executor_success() {
    let executor = MockHookExecutor { should_fail: false };
    let actions = HookActions::default();
    assert!(executor.execute_hooks(&actions, "/test/worktree", "/test/source").is_ok());
}

#[test]
fn test_mock_hook_executor_failure() {
    let executor = MockHookExecutor { should_fail: true };
    let actions = HookActions::default();
    assert!(executor.execute_hooks(&actions, "/test/worktree", "/test/source").is_err());
}

struct MockGitClient {
    create_should_fail: bool,
    list_output: String,
}

impl GitClient for MockGitClient {
    fn create_worktree(&self, _branch: &str, _path: &str, _start_point: Option<&str>) -> Result<(), String> {
        if self.create_should_fail {
            return Err("Mock git create worktree failure".to_string());
        }
        Ok(())
    }

    fn list_worktrees(&self) -> Result<String, String> {
        Ok(self.list_output.clone())
    }

    fn remove_worktree(&self, _path: &str) -> Result<(), String> {
        Ok(())
    }

    fn remove_branch(&self, _branch: &str) -> Result<(), String> {
        Ok(())
    }
}

#[test]
fn test_mock_git_client_create_worktree_success() {
    let client = MockGitClient { create_should_fail: false, list_output: String::new() };
    assert!(client.create_worktree("feature", "/test/worktree", None).is_ok());
}

#[test]
fn test_mock_git_client_create_worktree_with_start_point() {
    let client = MockGitClient { create_should_fail: false, list_output: String::new() };
    assert!(client.create_worktree("feature", "/test/worktree", Some("main")).is_ok());
}

#[test]
fn test_mock_git_client_list_worktrees() {
    let expected_output = "worktree /path/to/worktree\nbranch refs/heads/main\n";
    let client = MockGitClient { create_should_fail: false, list_output: expected_output.to_string() };
    let result = client.list_worktrees();
    assert!(result.is_ok());
    assert_eq!(result.unwrap(), expected_output);
}

#[test]
fn test_mock_git_client_remove_worktree_success() {
    let client = MockGitClient { create_should_fail: false, list_output: String::new() };
    assert!(client.remove_worktree("/test/worktree").is_ok());
}

#[test]
fn test_mock_git_client_remove_branch_success() {
    let client = MockGitClient { create_should_fail: false, list_output: String::new() };
    assert!(client.remove_branch("feature").is_ok());
}

struct MockZoxideClient {
    should_fail: bool,
}

impl ZoxideClient for MockZoxideClient {
    fn add(&self, _path: &str) -> Result<(), String> {
        if self.should_fail {
            return Err("Mock zoxide failure".to_string());
        }
        Ok(())
    }
}

#[test]
fn test_mock_zoxide_client_success() {
    let client = MockZoxideClient { should_fail: false };
    assert!(client.add("/test/path").is_ok());
}

#[test]
fn test_mock_zoxide_client_failure() {
    let client = MockZoxideClient { should_fail: true };
    assert!(client.add("/test/path").is_err());
}

#[test]
fn test_add_to_zoxide_if_enabled_disabled() {
    let client = MockZoxideClient { should_fail: true };
    let result = add_to_zoxide_if_enabled(&client, "/test/path", false, true);
    assert!(result.is_ok());
}

#[test]
fn test_add_to_zoxide_if_enabled_enabled() {
    let ok = MockZoxideClient { should_fail: false };
    assert!(add_to_zoxide_if_enabled(&ok, "/tmp", true, true).is_ok());
    let failing = MockZoxideClient { should_fail: true };
    assert!(add_to_zoxide_if_enabled(&failing, "/tmp", true, false).is_ok());
    assert!(add_to_zoxide_if_enabled(&failing, "/tmp", true, true).is_err());
}
