use ofsht::config::{
    default_dir, should_use_tmux, Config, FzfConfig, GhConfig, HookActions, Hooks, IntegrationsConfig,
    TmuxBehavior, TmuxConfig, WorktreeConfig, ZoxideConfig,
};

#[test]
fn test_default_config() {
    let config = Config::default();
    assert_eq!(config.worktree.dir, "../{repo}-worktrees/{branch}");
    assert!(config.hooks.create.run.is_empty());
    assert!(config.hooks.delete.run.is_empty());
    assert!(config.integrations.zoxide.enabled);
    assert!(config.integrations.fzf.enabled);
    assert_eq!(config.integrations.tmux.create, "window");
}

#[test]
fn test_zoxide_config_default() {
    let config = ZoxideConfig::default();
    assert!(config.enabled);
}

#[test]
fn test_fzf_config_default() {
    let config = FzfConfig::default();
    assert!(config.enabled);
    assert!(config.options.is_empty());
}

#[test]
fn test_tmux_config_default() {
    let config = TmuxConfig::default();
    assert_eq!(config.behavior, TmuxBehavior::Auto);
    assert_eq!(config.create, "window");
}

#[test]
fn test_gh_config_default() {
    let config = GhConfig::default();
    assert!(config.enabled);
}

#[test]
fn test_integrations_default() {
    let config = IntegrationsConfig::default();
    assert!(config.zoxide.enabled);
    assert!(config.fzf.enabled);
    assert_eq!(config.tmux.behavior, TmuxBehavior::Auto);
    assert_eq!(config.tmux.create, "window");
    assert!(config.gh.enabled);
}

#[test]
fn test_local_config_path() {
    let path = Config::local_config_path();
    assert_eq!(path, ".ofsht.toml");
}

#[test]
fn test_local_config_path_from_repo_root() {
    let repo_root = "/tmp/my-repo";
    let path = Config::local_config_path_from(repo_root);
    assert_eq!(path, "/tmp/my-repo/.ofsht.toml");
}

#[test]
fn test_merge_configs() {
    let base = Config {
        worktree: WorktreeConfig { dir: "/base/{branch}".to_string() },
        hooks: Hooks::default(),
        integrations: IntegrationsConfig::default(),
    };
    let override_config = Config {
        worktree: WorktreeConfig { dir: "/override/{branch}".to_string() },
        hooks: Hooks::default(),
        integrations: IntegrationsConfig::default(),
    };
    let merged = base.merge(&override_config);
    assert_eq!(merged.worktree.dir, "/override/{branch}");
}

#[test]
fn merge_concatenates_hook_actions() {
    let a = HookActions { run: vec!["a".to_string()], copy: vec![], link: vec!["l".to_string()] };
    let b = HookActions { run: vec!["b".to_string()], copy: vec!["c".to_string()], link: vec![] };
    let m = a.merge(&b);
    assert_eq!(m.run, vec!["a".to_string(), "b".to_string()]);
    assert_eq!(m.copy, vec!["c".to_string()]);
    assert_eq!(m.link, vec!["l".to_string()]);
}

#[test]
fn local_file_takes_global_integrations() {
    let mut local = Config::default();
    local.worktree.dir = "/local/{branch}".to_string();
    local.integrations.zoxide.enabled = true;
    let mut global_integrations = IntegrationsConfig::default();
    global_integrations.zoxide.enabled = false;
    let cfg = Config::from_loaded(Some(local), Some(global_integrations), None);
    assert_eq!(cfg.worktree.dir, "/local/{branch}");
    assert!(!cfg.integrations.zoxide.enabled);
}

#[test]
fn without_files_defaults_apply() {
    let cfg = Config::from_loaded(None, None, None);
    assert_eq!(cfg.worktree.dir, default_dir());
    let mut global = Config::default();
    global.worktree.dir = "/g/{branch}".to_string();
    let cfg = Config::from_loaded(None, None, Some(global));
    assert_eq!(cfg.worktree.dir, "/g/{branch}");
}

#[test]
fn test_should_use_tmux_no_tmux_flag_priority() {
    assert!(!should_use_tmux(TmuxBehavior::Always, true, true));
    assert!(!should_use_tmux(TmuxBehavior::Always, false, true));
    assert!(!should_use_tmux(TmuxBehavior::Auto, true, true));
    assert!(!should_use_tmux(TmuxBehavior::Auto, false, true));
}

#[test]
fn test_should_use_tmux_tmux_flag_priority() {
    assert!(should_use_tmux(TmuxBehavior::Never, true, false));
    assert!(should_use_tmux(TmuxBehavior::Auto, true, false));
    assert!(should_use_tmux(TmuxBehavior::Always, true, false));
}

#[test]
fn test_should_use_tmux_behavior_auto() {
    assert!(!should_use_tmux(TmuxBehavior::Auto, false, false));
}

#[test]
fn test_should_use_tmux_behavior_always() {
    assert!(should_use_tmux(TmuxBehavior::Always, false, false));
}

#[test]
fn test_should_use_tmux_behavior_never() {
    assert!(!should_use_tmux(TmuxBehavior::Never, false, false));
}
