use ofsht::porcelain::{
    find_worktree_by_branch, parse_worktree_entries_with, is_main_worktree, parse_all_worktrees, parse_simple_worktree_entries,
    parse_worktree_entries, parse_worktree_list,
};

const TWO: &str = "worktree /path/to/main
branch refs/heads/main

worktree /path/to/feature
branch refs/heads/feature

";

#[test]
fn test_parse_worktree_list_excludes_main() {
    let result = parse_worktree_list(TWO);
    assert_eq!(result, vec!["feature"]);
}

#[test]
fn test_parse_worktree_list_multiple_worktrees() {
    let output = "worktree /path/to/main
branch refs/heads/main

worktree /path/to/feature-a
branch refs/heads/feature-a

worktree /path/to/feature-b
branch refs/heads/feature-b

";
    let result = parse_worktree_list(output);
    assert_eq!(result, vec!["feature-a", "feature-b"]);
}

#[test]
fn test_parse_worktree_list_empty() {
    let result = parse_worktree_list("");
    assert!(result.is_empty());
}

#[test]
fn parse_worktree_list_skips_detached() {
    let output = "worktree /m\nbranch refs/heads/main\n\nworktree /d\ndetached\n\nworktree /f\nbranch refs/heads/f\n";
    assert_eq!(parse_worktree_list(output), vec!["f"]);
}

#[test]
fn test_find_worktree_by_branch_finds_path() {
    let output = "worktree /path/to/main
branch refs/heads/main

worktree /path/to/feature
branch refs/heads/feature

worktree /path/to/bugfix
branch refs/heads/bugfix

";
    let result = find_worktree_by_branch(output, "feature");
    assert_eq!(result, Some("/path/to/feature".to_string()));
}

#[test]
fn test_find_worktree_by_branch_not_found() {
    let result = find_worktree_by_branch(TWO, "nonexistent");
    assert_eq!(result, None);
}

#[test]
fn test_find_worktree_by_branch_main_not_found() {
    let result = find_worktree_by_branch(TWO, "main");
    assert_eq!(result, None);
}

#[test]
fn test_is_main_worktree_by_path() {
    assert!(is_main_worktree(TWO, "/path/to/main"));
    assert!(!is_main_worktree(TWO, "/path/to/feature"));
    assert!(!is_main_worktree(TWO, "/nonexistent"));
}

#[test]
fn test_is_main_worktree_by_branch() {
    let output = "worktree /path/to/main
branch refs/heads/develop

worktree /path/to/feature
branch refs/heads/feature

";
    assert!(is_main_worktree(output, "@"));
    assert!(is_main_worktree(output, "develop"));
    assert!(!is_main_worktree(output, "feature"));
}

#[test]
fn test_parse_worktree_entries_single_worktree() {
    let output = "worktree /path/to/main
HEAD 1234567890abcdef1234567890abcdef
branch refs/heads/main

";
    let result = parse_worktree_entries(output, None);
    assert_eq!(result.len(), 1);
    assert_eq!(result[0].path, "/path/to/main");
    assert_eq!(result[0].branch, Some("main".to_string()));
    assert_eq!(result[0].hash, "12345678");
}

#[test]
fn test_parse_worktree_entries_multiple_worktrees() {
    let output = "worktree /path/to/main
HEAD 1234567890abcdef1234567890abcdef
branch refs/heads/main

worktree /path/to/feature
HEAD abcdef1234567890abcdef1234567890
branch refs/heads/feature

worktree /path/to/bugfix
HEAD fedcba0987654321fedcba0987654321
branch refs/heads/bugfix

";
    let result = parse_worktree_entries(output, None);
    assert_eq!(result.len(), 3);
    assert_eq!(result[0].path, "/path/to/main");
    assert_eq!(result[0].branch, Some("main".to_string()));
    assert_eq!(result[0].hash, "12345678");
    assert_eq!(result[1].path, "/path/to/feature");
    assert_eq!(result[1].branch, Some("feature".to_string()));
    assert_eq!(result[1].hash, "abcdef12");
    assert_eq!(result[2].path, "/path/to/bugfix");
    assert_eq!(result[2].branch, Some("bugfix".to_string()));
    assert_eq!(result[2].hash, "fedcba09");
}

#[test]
fn test_parse_worktree_entries_detached_head() {
    let output = "worktree /path/to/main
HEAD 1234567890abcdef1234567890abcdef
detached

worktree /path/to/feature
HEAD abcdef1234567890abcdef1234567890
branch refs/heads/feature

";
    let result = parse_worktree_entries(output, None);
    assert_eq!(result.len(), 2);
    assert_eq!(result[0].path, "/path/to/main");
    assert_eq!(result[0].branch, None);
    assert_eq!(result[0].hash, "12345678");
    assert_eq!(result[1].path, "/path/to/feature");
    assert_eq!(result[1].branch, Some("feature".to_string()));
    assert_eq!(result[1].hash, "abcdef12");
}

#[test]
fn test_parse_worktree_entries_empty() {
    let result = parse_worktree_entries("", None);
    assert!(result.is_empty());
}

#[test]
fn test_parse_worktree_entries_with_active_path() {
    let output = "worktree /path/to/main
HEAD 1234567890abcdef1234567890abcdef
branch refs/heads/main

worktree /path/to/feature
HEAD abcdef1234567890abcdef1234567890
branch refs/heads/feature

";
    let result = parse_worktree_entries(output, Some("/path/to/feature"));
    assert_eq!(result.len(), 2);
    assert!(!result[0].is_active);
    assert!(result[1].is_active);
}

#[test]
fn test_parse_worktree_entries_without_active_path() {
    let output = "worktree /path/to/main
HEAD 1234567890abcdef1234567890abcdef
branch refs/heads/main

worktree /path/to/feature
HEAD abcdef1234567890abcdef1234567890
branch refs/heads/feature

";
    let result = parse_worktree_entries(output, None);
    assert_eq!(result.len(), 2);
    assert!(!result[0].is_active);
    assert!(!result[1].is_active);
}

#[test]
fn parse_entries_missing_head_is_unknown_and_any_order() {
    let output = "worktree /a\nbranch refs/heads/x\n\nworktree /b\nbranch refs/remotes/origin/y\nHEAD 0123\n";
    let result = parse_worktree_entries(output, None);
    assert_eq!(result.len(), 2);
    assert_eq!(result[0].hash, "(unknown)");
    assert_eq!(result[1].hash, "0123");
    assert_eq!(result[1].branch, Some("refs/remotes/origin/y".to_string()));
}

#[test]
fn parse_entries_crlf_lines() {
    let output = "worktree /a\r\nHEAD 1234567890\r\nbranch refs/heads/x\r\n\r\n";
    let result = parse_worktree_entries(output, None);
    assert_eq!(result.len(), 1);
    assert_eq!(result[0].path, "/a");
    assert_eq!(result[0].hash, "12345678");
}

#[test]
fn test_parse_simple_worktree_entries_single() {
    let output = "worktree /path/to/main
branch refs/heads/main

";
    let result = parse_simple_worktree_entries(output);
    assert_eq!(result.len(), 1);
    assert_eq!(result[0].path, "/path/to/main");
    assert_eq!(result[0].branch, Some("main".to_string()));
}

#[test]
fn test_parse_simple_worktree_entries_multiple() {
    let output = "worktree /path/to/main
branch refs/heads/main

worktree /path/to/feature
branch refs/heads/feature

worktree /path/to/bugfix
branch refs/heads/bugfix

";
    let result = parse_simple_worktree_entries(output);
    assert_eq!(result.len(), 3);
    assert_eq!(result[0].path, "/path/to/main");
    assert_eq!(result[0].branch, Some("main".to_string()));
    assert_eq!(result[1].path, "/path/to/feature");
    assert_eq!(result[1].branch, Some("feature".to_string()));
    assert_eq!(result[2].path, "/path/to/bugfix");
    assert_eq!(result[2].branch, Some("bugfix".to_string()));
}

#[test]
fn test_parse_simple_worktree_entries_detached() {
    let output = "worktree /path/to/main
detached

worktree /path/to/feature
branch refs/heads/feature

";
    let result = parse_simple_worktree_entries(output);
    assert_eq!(result.len(), 2);
    assert_eq!(result[0].path, "/path/to/main");
    assert_eq!(result[0].branch, None);
    assert_eq!(result[1].path, "/path/to/feature");
    assert_eq!(result[1].branch, Some("feature".to_string()));
}

#[test]
fn test_parse_simple_worktree_entries_empty() {
    let result = parse_simple_worktree_entries("");
    assert!(result.is_empty());
}

#[test]
fn test_parse_simple_worktree_entries_no_blank_lines() {
    let output = "worktree /path/to/main
branch refs/heads/main";
    let result = parse_simple_worktree_entries(output);
    assert_eq!(result.len(), 1);
    assert_eq!(result[0].path, "/path/to/main");
    assert_eq!(result[0].branch, Some("main".to_string()));
}

#[test]
fn parse_all_worktrees_splits_main() {
    let (main, rest) = parse_all_worktrees(TWO);
    assert_eq!(main, "/path/to/main");
    assert_eq!(rest, vec![("/path/to/feature".to_string(), Some("feature".to_string()))]);
    let (main, rest) = parse_all_worktrees("");
    assert_eq!(main, "");
    assert!(rest.is_empty());
}

#[test]
fn end_to_end_scenario_parse() {
    let text = "worktree /r/main
HEAD 1234567890abcdef1234567890abcdef
branch refs/heads/main

worktree /r/wt/feature
HEAD abcdef1234567890abcdef1234567890
branch refs/heads/feature

";
    let entries = parse_worktree_entries(text, None);
    assert_eq!(entries.len(), 2);
    assert_eq!(entries[0].path, "/r/main");
    assert_eq!(entries[0].branch, Some("main".to_string()));
    assert_eq!(entries[0].hash, "12345678");
    assert_eq!(entries[1].path, "/r/wt/feature");
    assert_eq!(entries[1].branch, Some("feature".to_string()));
    assert_eq!(entries[1].hash, "abcdef12");
    let root = ofsht::paths::calculate_worktree_root_from_paths(&vec![entries[1].path.clone()]);
    assert_eq!(root, Some("/r/wt".to_string()));
    assert_eq!(
        ofsht::paths::calculate_relative_path("/r/wt/feature", "/r/wt"),
        Some("feature".to_string())
    );
}

#[test]
fn block_count_matches_terminated_blocks() {
    let text = "worktree /a\nHEAD 1\n\nworktree /b\ndetached\n\nworktree /c\nbranch refs/heads/c\n\n";
    let entries = parse_simple_worktree_entries(text);
    let paths: Vec<&str> = entries.iter().map(|e| e.path.as_str()).collect();
    assert_eq!(paths, vec!["/a", "/b", "/c"]);
}

#[test]
fn active_entry_from_canonical_forms() {
    let output = "worktree /w/main\n\nworktree /w/link\n\nworktree /w/gone\n\n";
    let canon = vec![Some("/real/main".to_string()), Some("/real/feat".to_string()), None];
    let r = parse_worktree_entries_with(output, Some("/here"), Some("/real/feat"), &canon);
    assert_eq!(r.iter().map(|e| e.is_active).collect::<Vec<_>>(), vec![false, true, false]);
    let r = parse_worktree_entries_with(output, Some("/w/gone/"), Some("/real/other"), &canon);
    assert_eq!(r.iter().map(|e| e.is_active).collect::<Vec<_>>(), vec![false, false, true]);
    let r = parse_worktree_entries_with(output, None, None, &canon);
    assert!(r.iter().all(|e| !e.is_active));
}
