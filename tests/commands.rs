use ofsht::completion::{complete_refs, complete_worktrees};
use ofsht::config::init_scopes;
use ofsht::integrations::pr_branch_and_start;
use ofsht::listing::plain_listing;
use ofsht::paths::{canonicalize_allow_missing, expand_worktree_path, replace_text};
use ofsht::porcelain::{find_goto_path, parse_simple_worktree_entries};

const LISTING: &str = "worktree /r/main
branch refs/heads/main

worktree /r/wt/feat
branch refs/heads/feat

worktree /r/wt/detached
detached

";

#[test]
fn worktree_path_from_template() {
    assert_eq!(expand_worktree_path("../{repo}-worktrees/{branch}", "/home/u/proj", "proj", "feat"), "/home/u/proj/../proj-worktrees/feat");
    assert_eq!(expand_worktree_path("/tmp/{branch}", "/home/u/proj", "proj", "a/b"), "/tmp/a/b");
    assert_eq!(replace_text("{x}{x}-{x}", "{x}", "ab"), "abab-ab");
    assert_eq!(replace_text("aaa", "aa", "b"), "ba");
}

#[test]
fn cd_targets() {
    assert_eq!(find_goto_path(LISTING, "@"), Some("/r/main".to_string()));
    assert_eq!(find_goto_path(LISTING, "feat"), Some("/r/wt/feat".to_string()));
    assert_eq!(find_goto_path(LISTING, "main"), Some("/r/main".to_string()));
    assert_eq!(find_goto_path(LISTING, "nope"), None);
    assert_eq!(find_goto_path("", "@"), Some(String::new()));
}

#[test]
fn pull_request_checkout_names() {
    assert_eq!(
        pr_branch_and_start(12, "user/fix", true, true),
        ("pr-12-user-fix".to_string(), Some("FETCH_HEAD".to_string()))
    );
    assert_eq!(pr_branch_and_start(12, "fix", true, false), ("fix".to_string(), Some("FETCH_HEAD".to_string())));
    assert_eq!(pr_branch_and_start(12, "fix", false, true), ("fix".to_string(), None));
    assert_eq!(pr_branch_and_start(12, "fix", false, false), ("fix".to_string(), Some("origin/fix".to_string())));
}

#[test]
fn init_writes_both_by_default() {
    assert_eq!(init_scopes(false, false), (true, true));
    assert_eq!(init_scopes(true, false), (true, false));
    assert_eq!(init_scopes(false, true), (false, true));
}

#[test]
fn plain_listing_names() {
    let entries = parse_simple_worktree_entries(LISTING);
    let lines = plain_listing(&entries);
    assert_eq!(lines[0], "@");
    assert_eq!(lines[1], "feat");
    assert!(lines[2].ends_with("detached"));
    assert_eq!(lines.len(), 3);
}

#[test]
fn canonicalize_resolves_existing_symlink() {
    let result = canonicalize_allow_missing("/proc/self", "/");
    assert!(result.starts_with("/proc/"));
    assert_ne!(result, "/proc/self");
    let below = canonicalize_allow_missing("/proc/self/missing-xyz/deeper", "/");
    assert!(below.ends_with("/missing-xyz/deeper"));
    assert!(!below.starts_with("/proc/self/"));
}

#[test]
fn ref_completion_skips_symbolic_refs() {
    let out = "main\t\norigin/HEAD\trefs/remotes/origin/main\norigin/main\t\nv1.0\t\nfeature/x\t\n";
    assert_eq!(complete_refs(out, ""), vec!["main", "origin/main", "v1.0", "feature/x"]);
    assert_eq!(complete_refs(out, "fe"), vec!["feature/x"]);
    assert_eq!(complete_refs("  padded  \t  \n", "p"), vec!["padded"]);
}

#[test]
fn worktree_completion_candidates() {
    let listing = "worktree /r/main\nbranch refs/heads/main\n\nworktree /r/wt/feat\nbranch refs/heads/feat\n\nworktree /r/wt/docs/tweak\nbranch refs/heads/docs/tweak\n\n";
    assert_eq!(complete_worktrees(listing, "", false), vec!["@", "feat", "docs/tweak"]);
    assert_eq!(complete_worktrees(listing, "", true), vec!["@", "feat", "docs/tweak"]);
    assert_eq!(complete_worktrees(listing, "d", true), vec!["docs/tweak"]);
    assert_eq!(complete_worktrees(listing, "@", true), vec!["@"]);
}
