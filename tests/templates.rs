use ofsht::templates::TemplateContext;

fn all_on() -> TemplateContext {
    TemplateContext { gh_available: true, zoxide_available: true, fzf_available: true, tmux_available: true }
}

#[test]
fn test_detect_all_tools_available() {
    let ctx = all_on();
    assert!(ctx.gh_available);
    assert!(ctx.zoxide_available);
    assert!(ctx.fzf_available);
    assert!(ctx.tmux_available);
}

#[test]
fn test_detect_some_tools_unavailable() {
    let ctx = TemplateContext { gh_available: false, zoxide_available: true, fzf_available: false, tmux_available: true };
    assert!(!ctx.gh_available);
    assert!(ctx.zoxide_available);
    assert!(!ctx.fzf_available);
    assert!(ctx.tmux_available);
}

#[test]
fn test_generate_global_all_enabled() {
    let template = all_on().generate_global();
    assert!(template.contains("[integration.zoxide]"));
    assert!(template.contains("[integration.fzf]"));
    assert!(template.contains("[integration.tmux]"));
    assert!(template.contains("[integration.gh]"));
    assert!(template.contains("enabled = true"));
    assert!(template.contains(".idea/workspace.xml"));
    assert!(!template.contains("node_modules"));
    assert!(!template.contains("Note: copy and link actions are not supported in delete hooks"));
}

#[test]
fn test_generate_global_gh_disabled() {
    let ctx = TemplateContext { gh_available: false, zoxide_available: true, fzf_available: true, tmux_available: true };
    let template = ctx.generate_global();
    assert!(template.contains("[integration.gh]"));
    assert!(template.contains("enabled = false"));
    assert!(template.contains("https://cli.github.com"));
    assert!(template.contains("[integration.zoxide]"));
    assert!(template.contains("enabled = true"));
}

#[test]
fn test_generate_local_no_worktree_section() {
    let template = all_on().generate_local();
    assert!(!template.contains("[worktree]"));
}

#[test]
fn test_generate_local_has_hooks_only() {
    let template = all_on().generate_local();
    assert!(template.contains("[hooks.create]"));
    assert!(template.contains("[hooks.delete]"));
    assert!(!template.contains("[integration.zoxide]"));
    assert!(!template.contains("[integration.fzf]"));
    assert!(!template.contains("[integration.tmux]"));
    assert!(!template.contains("[integration.gh]"));
}

#[test]
fn global_template_sections_in_order_and_variables_literal() {
    let off = TemplateContext { gh_available: false, zoxide_available: false, fzf_available: false, tmux_available: false };
    let t = off.generate_global();
    assert!(t.contains("dir = \"../{repo}-worktrees/{branch}\""));
    assert!(t.contains("behavior = \"never\""));
    let z = t.find("[integration.zoxide]").unwrap();
    let f = t.find("[integration.fzf]").unwrap();
    let m = t.find("[integration.tmux]").unwrap();
    let g = t.find("[integration.gh]").unwrap();
    assert!(z < f && f < m && m < g);
    assert!(t.ends_with("enabled = false\n"));
}

#[test]
fn generate_global_uses_link_example() {
    let template = all_on().generate_global();
    assert!(template.contains("# \".idea/workspace.xml\","));
    assert!(!template.contains("# \"node_modules\""));
}

#[test]
fn generate_local_uses_link_example() {
    let template = all_on().generate_local();
    assert!(template.contains("# \".idea/workspace.xml\","));
    assert!(!template.contains("# \"node_modules\""));
}
