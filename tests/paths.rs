use ofsht::paths::{
    calculate_branch_depth, calculate_relative_path, calculate_worktree_root, calculate_worktree_root_from_paths,
    canonical_from_answers, canonicalize_allow_missing, display_path_with_home, join_paths, normalize_absolute_path,
    normalize_path_lexically, parent_of, same_path,
};

#[test]
fn test_normalize_path_lexically_removes_parent_dirs() {
    let result = normalize_path_lexically("/Users/test/ofsht/../ofsht-worktrees/feature");
    assert_eq!(result, "/Users/test/ofsht-worktrees/feature");
}

#[test]
fn test_normalize_path_lexically_removes_current_dirs() {
    let result = normalize_path_lexically("/Users/./test/./feature");
    assert_eq!(result, "/Users/test/feature");
}

#[test]
fn test_normalize_path_lexically_preserves_symlinks() {
    let result = normalize_path_lexically("/path/to/symlink/../target");
    assert_eq!(result, "/path/to/target");
}

#[test]
fn normalize_drops_parent_above_root_and_empty_segments() {
    assert_eq!(normalize_path_lexically("/../a//b/"), "/a/b");
    assert_eq!(normalize_path_lexically("../x"), "x");
    assert_eq!(normalize_path_lexically("a/.."), "");
    assert_eq!(normalize_path_lexically("/"), "/");
    assert_eq!(normalize_path_lexically(""), "");
}

#[test]
fn normalize_is_idempotent_on_examples() {
    for p in ["/a/./b/../c", "x/../../y/z", "/..", "./a/b/", "a//b"] {
        let once = normalize_path_lexically(p);
        assert_eq!(normalize_path_lexically(&once), once);
    }
}

#[test]
fn normalize_keeps_clean_paths() {
    for p in ["/a/b/c", "a/b", "/", "x"] {
        assert_eq!(normalize_path_lexically(p), p);
    }
}

#[test]
fn test_display_path_normalizes_parent_dirs() {
    let result = display_path_with_home("/Users/test/ofsht/../ofsht-worktrees/feature", Some("/home/u"));
    assert!(!result.contains(".."));
    assert!(result.contains("ofsht-worktrees/feature"));
}

#[test]
fn test_display_path_under_home() {
    let result = display_path_with_home("/home/u/test/path", Some("/home/u"));
    assert!(result.starts_with("~/"));
    assert_eq!(result, "~/test/path");
}

#[test]
fn test_display_path_home_itself() {
    assert_eq!(display_path_with_home("/home/u", Some("/home/u")), "~");
}

#[test]
fn worktree_test_display_path_outside_home() {
    let result = display_path_with_home("/tmp/worktree", Some("/home/u"));
    assert!(!result.starts_with('~'));
}

#[test]
fn main_test_display_path_outside_home() {
    let result = display_path_with_home("/tmp/test/path", Some("/home/u"));
    assert_eq!(result, "/tmp/test/path");
}

#[test]
fn display_path_without_home_is_normalized() {
    assert_eq!(display_path_with_home("/a/./b/../c", None), "/a/c");
    assert_eq!(display_path_with_home("/home/user2/x", Some("/home/user")), "/home/user2/x");
}

#[test]
fn test_normalize_absolute_path_resolves_parent_dirs() {
    let result = normalize_absolute_path("/Users/test/ofsht/../ofsht-worktrees/feature", "/");
    assert_eq!(result, "/Users/test/ofsht-worktrees/feature");
    assert!(!result.contains(".."));
}

#[test]
fn test_normalize_absolute_path_removes_current_dirs() {
    let result = normalize_absolute_path("/Users/./test/./feature", "/");
    assert_eq!(result, "/Users/test/feature");
    assert!(!result.split('/').any(|x| x == "."));
}

#[test]
fn test_normalize_absolute_path_outside_home() {
    let result = normalize_absolute_path("/tmp/worktree", "/");
    assert!(!result.starts_with('~'));
    assert!(result.contains("worktree"));
}

#[test]
fn test_normalize_absolute_path_handles_relative_paths() {
    let result = normalize_absolute_path("worktrees/feature", "/nonexistent-base-dir");
    assert!(result.starts_with('/'));
    assert!(result.contains("worktrees"));
    assert!(result.contains("feature"));
}

#[test]
fn test_normalize_absolute_path_consistency_with_display_path() {
    let p = "/Users/test/ofsht/../ofsht-worktrees/./feature";
    let normalized_abs = normalize_absolute_path(p, "/");
    let displayed = display_path_with_home(p, None);
    assert!(!normalized_abs.contains(".."));
    assert!(!normalized_abs.split('/').any(|x| x == "."));
    assert!(!displayed.contains(".."));
    assert!(!normalized_abs.starts_with('~'));
}

#[test]
fn test_canonicalize_allow_missing_nonexistent_absolute() {
    let result = canonicalize_allow_missing("/nonexistent-root-xyz/a/../b", "/");
    assert_eq!(result, "/nonexistent-root-xyz/b");
}

#[test]
fn test_canonicalize_allow_missing_relative_nonexistent() {
    let result = canonicalize_allow_missing("missing-xyz/child", "/nonexistent-cwd-xyz");
    assert_eq!(result, "/nonexistent-cwd-xyz/missing-xyz/child");
}

#[test]
fn join_paths_follows_pathbuf_join() {
    assert_eq!(join_paths("/a", "b"), "/a/b");
    assert_eq!(join_paths("/a/", "b"), "/a/b");
    assert_eq!(join_paths("/a", "/b"), "/b");
    assert_eq!(join_paths("", "b"), "b");
}

#[test]
fn test_calculate_branch_depth_simple() {
    assert_eq!(calculate_branch_depth("../{repo}-worktrees/{branch}"), 1);
}

#[test]
fn test_calculate_branch_depth_nested() {
    assert_eq!(calculate_branch_depth("../{repo}-worktrees/subdir/{branch}"), 2);
}

#[test]
fn test_calculate_branch_depth_mixed_separators() {
    assert_eq!(calculate_branch_depth("../{repo}-worktrees\\{branch}"), 1);
}

#[test]
fn branch_depth_without_placeholder_counts_all_names() {
    assert_eq!(calculate_branch_depth("/abs/./x/../y"), 3);
    assert_eq!(calculate_branch_depth("{branch}"), 0);
}

#[test]
fn test_calculate_worktree_root_from_feature_branch() {
    let root = calculate_worktree_root("/Users/test/repo-worktrees/feature", "../{repo}-worktrees/{branch}");
    assert_eq!(root, Some("/Users/test/repo-worktrees".to_string()));
}

#[test]
fn test_calculate_worktree_root_insufficient_depth() {
    let root = calculate_worktree_root("/", "../{repo}-worktrees/{branch}");
    assert_eq!(root, None);
}

#[test]
fn test_calculate_relative_path_simple() {
    assert_eq!(
        calculate_relative_path("/Users/test/repo-worktrees/feature", "/Users/test/repo-worktrees"),
        Some("feature".to_string())
    );
}

#[test]
fn test_calculate_relative_path_nested() {
    assert_eq!(
        calculate_relative_path("/Users/test/repo-worktrees/docs/tweak", "/Users/test/repo-worktrees"),
        Some("docs/tweak".to_string())
    );
}

#[test]
fn test_calculate_relative_path_outside_root() {
    assert_eq!(calculate_relative_path("/tmp/elsewhere", "/Users/test/repo-worktrees"), None);
}

#[test]
fn test_calculate_relative_path_deeply_nested() {
    assert_eq!(
        calculate_relative_path("/Users/test/repo-worktrees/team/alice/fix", "/Users/test/repo-worktrees"),
        Some("team/alice/fix".to_string())
    );
}

#[test]
fn relative_path_scenarios() {
    assert_eq!(calculate_relative_path("/a/b/x", "/a/b"), Some("x".to_string()));
    assert_eq!(calculate_relative_path("/c/x", "/a/b"), None);
    assert_eq!(calculate_relative_path("/a/b", "/a/b"), Some(String::new()));
    assert_eq!(calculate_relative_path("/a/bc", "/a/b"), None);
}

#[test]
fn common_root_scenarios() {
    assert_eq!(calculate_worktree_root_from_paths(&vec![]), None);
    assert_eq!(calculate_worktree_root_from_paths(&vec!["/a/b/x".to_string()]), Some("/a/b".to_string()));
    assert_eq!(
        calculate_worktree_root_from_paths(&vec!["/a/b/x".to_string(), "/a/b/y/z".to_string()]),
        Some("/a/b".to_string())
    );
    assert_eq!(calculate_worktree_root_from_paths(&vec!["a/x".to_string(), "b/y".to_string()]), None);
    assert_eq!(
        calculate_worktree_root_from_paths(&vec![
            "/Users/test/repo-worktrees/feature".to_string(),
            "/Users/test/repo-worktrees/docs/tweak".to_string(),
        ]),
        Some("/Users/test/repo-worktrees".to_string())
    );
    assert_eq!(calculate_worktree_root_from_paths(&vec!["/".to_string()]), None);
}

#[test]
fn parent_and_path_equality() {
    assert_eq!(parent_of("/a/b"), Some("/a".to_string()));
    assert_eq!(parent_of("/a"), Some("/".to_string()));
    assert_eq!(parent_of("/"), None);
    assert_eq!(parent_of("a"), Some(String::new()));
    assert!(same_path("/a//b/", "/a/b"));
    assert!(!same_path("/a/b", "a/b"));
}

#[test]
fn canonical_form_from_answers() {
    // answers[k]: the ancestor made of the first k components of the path
    let n = "/a/b/c";
    assert_eq!(canonical_from_answers(n, &vec![None, None, None, None, Some("/real/abc".to_string())]), "/real/abc");
    assert_eq!(
        canonical_from_answers(n, &vec![None, None, Some("/x".to_string()), Some("/y/b".to_string()), None]),
        "/y/b/c"
    );
    assert_eq!(canonical_from_answers(n, &vec![None, Some("/".to_string()), None, None, None]), "/a/b/c");
    assert_eq!(canonical_from_answers(n, &vec![None, None, None, None, None]), "/a/b/c");
    assert_eq!(canonical_from_answers("a/b", &vec![None, Some("/w/a".to_string()), None]), "/w/a/b");
}
