use ofsht::color::ColorMode;
use ofsht::config::Config;
use ofsht::listing::format_worktree_table;
use ofsht::porcelain::WorktreeEntry;

fn entry(path: &str, branch: Option<&str>, hash: &str, active: bool) -> WorktreeEntry {
    WorktreeEntry {
        path: path.to_string(),
        branch: branch.map(|b| b.to_string()),
        hash: hash.to_string(),
        is_active: active,
    }
}

#[test]
fn table_default_columns() {
    let entries = vec![
        entry("/r/main", Some("main"), "12345678", false),
        entry("/r/wt/feature", Some("feature"), "abcdef12", true),
    ];
    let lines = format_worktree_table(&entries, &vec![None, None], 0, false, ColorMode::Never, None);
    assert_eq!(lines, vec!["  12345678  [@]        –".to_string(), "* abcdef12  [feature]  –".to_string()]);
}

#[test]
fn table_relative_column_and_detached() {
    let entries = vec![
        entry("/r/main", Some("main"), "12345678", false),
        entry("/r/wt/feature", Some("feature"), "abcdef12", false),
        entry("/r/wt/docs/tweak", None, "(unknown)", false),
    ];
    let cfg = Config::default();
    let lines = format_worktree_table(&entries, &vec![None, None, None], 0, false, ColorMode::Never, Some(&cfg));
    assert_eq!(lines[0], "  12345678               [@]         –");
    assert_eq!(lines[1], "  abcdef12   feature     [feature]   –");
    assert_eq!(lines[2], "  (unknown)  docs/tweak  [detached]  –");
}

#[test]
fn table_colors_when_always() {
    let entries = vec![entry("/r/main", None, "12345678", true)];
    let lines = format_worktree_table(&entries, &vec![None], 0, false, ColorMode::Always, None);
    assert_eq!(lines[0], "\x1b[1;35m*\x1b[0m 12345678  \x1b[32m[@]\x1b[0m  \x1b[90m–\x1b[0m");
}

#[test]
fn table_age_is_humanized() {
    let entries = vec![entry("/r/main", Some("main"), "12345678", false)];
    let lines = format_worktree_table(&entries, &vec![Some(1_000)], 1_000 + 7_200, false, ColorMode::Never, None);
    assert!(lines[0].ends_with("2 hours ago"), "{}", lines[0]);
}
