use ofsht::resolve::{
    find_worktree_by_canonical, find_worktree_by_path, plan_removals, resolve_all, resolve_with_forms, resolve_worktree_target, CanonicalForms,
    DuplicateTarget, ResolveError, ResolvedTarget,
};

const LISTING: &str = "worktree /r/main
HEAD 1234567890abcdef1234567890abcdef
branch refs/heads/main

worktree /r/wt/feat
HEAD abcdef1234567890abcdef1234567890
branch refs/heads/feat

";

fn no_toplevel() -> Result<String, String> {
    Err("not a git repository".to_string())
}

#[test]
fn resolver_branch_token() {
    let t = resolve_worktree_target("feat", LISTING, &no_toplevel(), "/nonexistent-cwd-xyz").unwrap();
    assert_eq!(t.worktree_path, "/r/wt/feat");
    assert_eq!(t.branch_name, Some("feat".to_string()));
    assert!(!t.is_current);
}

#[test]
fn resolver_marker_is_main() {
    let r = resolve_worktree_target("@", LISTING, &no_toplevel(), "/nonexistent-cwd-xyz");
    assert_eq!(r, Err(ResolveError::MainWorktreeTargeted));
}

#[test]
fn resolver_main_branch_is_main() {
    let r = resolve_worktree_target("main", LISTING, &no_toplevel(), "/nonexistent-cwd-xyz");
    assert_eq!(r, Err(ResolveError::MainWorktreeTargeted));
}

#[test]
fn resolver_unknown_is_not_found() {
    let r = resolve_worktree_target("nope", LISTING, &no_toplevel(), "/nonexistent-cwd-xyz");
    assert_eq!(r, Err(ResolveError::NotFound("nope".to_string())));
}

#[test]
fn resolver_main_path_is_main() {
    let r = resolve_worktree_target("/r/main/", LISTING, &no_toplevel(), "/");
    assert_eq!(r, Err(ResolveError::MainWorktreeTargeted));
}

#[test]
fn resolver_path_token() {
    let t = resolve_worktree_target("/r/wt/./feat", LISTING, &no_toplevel(), "/").unwrap();
    assert_eq!(t.worktree_path, "/r/wt/feat");
    assert_eq!(t.branch_name, Some("feat".to_string()));
    assert_eq!(t.canonical_path, "/r/wt/feat");
}

#[test]
fn resolver_dot_outside_repository() {
    let r = resolve_worktree_target(".", LISTING, &no_toplevel(), "/");
    assert_eq!(r, Err(ResolveError::NotInRepository("not a git repository".to_string())));
}

#[test]
fn resolver_dot_in_linked_worktree() {
    let t = resolve_worktree_target(".", LISTING, &Ok("/r/wt/feat".to_string()), "/").unwrap();
    assert!(t.is_current);
    assert_eq!(t.branch_name, Some("feat".to_string()));
    assert_eq!(t.worktree_path, "/r/wt/feat");
}

#[test]
fn resolver_dot_in_main_worktree() {
    let r = resolve_worktree_target(".", LISTING, &Ok("/r/main".to_string()), "/");
    assert_eq!(r, Err(ResolveError::MainWorktreeTargeted));
}

#[test]
fn branch_name_wins_over_path() {
    let listing = "worktree /r/main\nbranch refs/heads/main\n\nworktree /r/a\nbranch refs/heads/b\n\nworktree /r/b\nbranch refs/heads/a\n\n";
    let t = resolve_worktree_target("a", listing, &no_toplevel(), "/r").unwrap();
    assert_eq!(t.worktree_path, "/r/b");
}

#[test]
fn resolve_with_given_forms() {
    let forms = CanonicalForms {
        main: "/real/main".to_string(),
        linked: vec!["/real/feat".to_string()],
        token: "/real/feat".to_string(),
        current: Err(String::new()),
    };
    let t = resolve_with_forms("some/link", LISTING, &forms).unwrap();
    assert_eq!(t.canonical_path, "/real/feat");
    assert_eq!(t.worktree_path, "/r/wt/feat");
    let forms = CanonicalForms {
        main: "/real/main".to_string(),
        linked: vec!["/real/feat".to_string()],
        token: "/real/main".to_string(),
        current: Err(String::new()),
    };
    assert_eq!(resolve_with_forms("link-to-main", LISTING, &forms), Err(ResolveError::MainWorktreeTargeted));
}

#[test]
fn test_find_worktree_by_path_exact_match() {
    let output = "worktree /path/to/main
branch refs/heads/main

worktree /path/to/feature
branch refs/heads/feature

worktree /path/to/bugfix
branch refs/heads/bugfix

";
    let result = find_worktree_by_path(output, "/path/to/feature", "/");
    assert_eq!(result, Some("/path/to/feature".to_string()));
}

#[test]
fn test_find_worktree_by_path_not_found() {
    let output = "worktree /path/to/main
branch refs/heads/main

worktree /path/to/feature
branch refs/heads/feature

";
    let result = find_worktree_by_path(output, "/path/to/nonexistent", "/");
    assert_eq!(result, None);
}

#[test]
fn test_find_worktree_by_path_main_excluded() {
    let output = "worktree /path/to/main
branch refs/heads/main

worktree /path/to/feature
branch refs/heads/feature

";
    let result = find_worktree_by_path(output, "/path/to/main", "/");
    assert_eq!(result, None);
}

fn target(path: &str, current: bool) -> ResolvedTarget {
    ResolvedTarget {
        canonical_path: path.to_string(),
        worktree_path: path.to_string(),
        branch_name: None,
        is_current: current,
    }
}

#[test]
fn batch_duplicate_is_dropped_once() {
    let t = resolve_worktree_target("feat", LISTING, &no_toplevel(), "/nonexistent-cwd-xyz").unwrap();
    let plan = plan_removals(&vec![t.clone(), t.clone()]);
    assert_eq!(plan.non_current, vec![t.clone()]);
    assert!(plan.current.is_none());
    assert_eq!(
        plan.duplicates,
        vec![DuplicateTarget { canonical_path: t.canonical_path.clone(), promoted: false }]
    );
}

#[test]
fn batch_current_takes_over_queued_target() {
    let plan = plan_removals(&vec![target("/a", false), target("/b", false), target("/a", true)]);
    assert_eq!(plan.non_current, vec![target("/b", false)]);
    assert_eq!(plan.current, Some(target("/a", true)));
    assert_eq!(plan.duplicates, vec![DuplicateTarget { canonical_path: "/a".to_string(), promoted: true }]);
}

#[test]
fn batch_keeps_input_order() {
    let plan = plan_removals(&vec![target("/c", false), target("/a", true), target("/b", false)]);
    assert_eq!(plan.non_current, vec![target("/c", false), target("/b", false)]);
    assert_eq!(plan.current, Some(target("/a", true)));
    assert!(plan.duplicates.is_empty());
}

#[test]
fn batch_resolution_fails_on_first_bad_token() {
    let tokens = vec!["feat".to_string(), "nope".to_string(), "@".to_string()];
    let r = resolve_all(&tokens, LISTING, &no_toplevel(), "/nonexistent-cwd-xyz");
    assert_eq!(r, Err(ResolveError::NotFound("nope".to_string())));
    let ok = resolve_all(&vec!["feat".to_string(), "feat".to_string()], LISTING, &no_toplevel(), "/").unwrap();
    assert_eq!(ok.len(), 2);
    assert_eq!(ok[0].worktree_path, "/r/wt/feat");
}

#[test]
fn lookup_by_canonical_forms() {
    let linked = vec!["/real/feat".to_string()];
    assert_eq!(find_worktree_by_canonical(LISTING, "/real/feat", &linked), Some("/r/wt/feat".to_string()));
    assert_eq!(find_worktree_by_canonical(LISTING, "/r/wt/feat", &linked), None);
}
