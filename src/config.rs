//! Configuration values, their defaults, merging and the file templates.
use vstd::prelude::*;

use crate::paths::join_path;
use crate::text::{concat_strings, copy_strings, seqs};

verus! {

/// Actions run by a hook: commands, files to copy, files to link.
pub struct HookActions {
    pub run: Vec<String>,
    pub copy: Vec<String>,
    pub link: Vec<String>,
}

/// Hooks run after creating and before deleting a worktree.
pub struct Hooks {
    pub create: HookActions,
    pub delete: HookActions,
}

/// Worktree settings: the directory template, with `{repo}` and `{branch}`.
pub struct WorktreeConfig {
    pub dir: String,
}

pub struct ZoxideConfig {
    pub enabled: bool,
}

pub struct FzfConfig {
    pub enabled: bool,
    /// Extra command-line options for fzf.
    pub options: Vec<String>,
}

/// When `add` opens a tmux window or pane.
#[derive(Debug, Clone, Copy, PartialEq, Eq, Structural)]
pub enum TmuxBehavior {
    /// Only with `--tmux`.
    Auto,
    /// Unless `--no-tmux`.
    Always,
    /// Only with `--tmux`, never by itself.
    Never,
}

pub struct TmuxConfig {
    pub behavior: TmuxBehavior,
    /// `"window"` or `"pane"`.
    pub create: String,
}

pub struct GhConfig {
    pub enabled: bool,
}

pub struct IntegrationsConfig {
    pub zoxide: ZoxideConfig,
    pub fzf: FzfConfig,
    pub tmux: TmuxConfig,
    pub gh: GhConfig,
}

/// The whole configuration.
pub struct Config {
    pub hooks: Hooks,
    pub worktree: WorktreeConfig,
    pub integrations: IntegrationsConfig,
}

pub type ActionsModel = (Seq<Seq<char>>, Seq<Seq<char>>, Seq<Seq<char>>);

impl HookActions {
    pub open spec fn model(&self) -> ActionsModel {
        (seqs(self.run@), seqs(self.copy@), seqs(self.link@))
    }

    /// No actions.
    pub fn empty() -> (r: Self)
        ensures
            r.run@.len() == 0 && r.copy@.len() == 0 && r.link@.len() == 0,
    {
        HookActions { run: Vec::new(), copy: Vec::new(), link: Vec::new() }
    }

    /// Both action lists, this one's first.
    pub fn merge(&self, other: &Self) -> (r: Self)
        ensures
            r.model() == (
                self.model().0 + other.model().0,
                self.model().1 + other.model().1,
                self.model().2 + other.model().2,
            ),
    {
        HookActions {
            run: concat_strings(&self.run, &other.run),
            copy: concat_strings(&self.copy, &other.copy),
            link: concat_strings(&self.link, &other.link),
        }
    }

    /// A copy of these actions.
    pub fn duplicate(&self) -> (r: Self)
        ensures
            r.model() == self.model(),
    {
        HookActions { run: copy_strings(&self.run), copy: copy_strings(&self.copy), link: copy_strings(&self.link) }
    }
}

impl Default for HookActions {
    fn default() -> (r: Self)
        ensures
            r.run@.len() == 0 && r.copy@.len() == 0 && r.link@.len() == 0,
    {
        HookActions::empty()
    }
}

impl Hooks {
    /// Both hooks' actions, this one's first.
    pub fn merge(&self, other: &Self) -> (r: Self)
        ensures
            r.create.model() == self.create.merge_model(&other.create),
            r.delete.model() == self.delete.merge_model(&other.delete),
    {
        Hooks { create: self.create.merge(&other.create), delete: self.delete.merge(&other.delete) }
    }
}

impl HookActions {
    pub open spec fn merge_model(&self, other: &Self) -> ActionsModel {
        (self.model().0 + other.model().0, self.model().1 + other.model().1, self.model().2 + other.model().2)
    }
}

impl Default for Hooks {
    fn default() -> (r: Self)
        ensures
            r.create.run@.len() == 0 && r.create.copy@.len() == 0 && r.create.link@.len() == 0,
            r.delete.run@.len() == 0 && r.delete.copy@.len() == 0 && r.delete.link@.len() == 0,
    {
        Hooks { create: HookActions::empty(), delete: HookActions::empty() }
    }
}

pub open spec fn default_dir_spec() -> Seq<char> {
    "../{repo}-worktrees/{branch}"@
}

/// The default directory template.
pub fn default_dir() -> (r: String)
    ensures
        r@ == default_dir_spec(),
{
    String::from_str("../{repo}-worktrees/{branch}")
}

pub fn default_zoxide_enabled() -> (r: bool)
    ensures
        r,
{
    true
}

pub fn default_fzf_enabled() -> (r: bool)
    ensures
        r,
{
    true
}

pub fn default_gh_enabled() -> (r: bool)
    ensures
        r,
{
    true
}

/// The default tmux creation target.
pub fn default_tmux_create() -> (r: String)
    ensures
        r@ == "window"@,
{
    String::from_str("window")
}

impl Default for WorktreeConfig {
    fn default() -> (r: Self)
        ensures
            r.dir@ == default_dir_spec(),
    {
        WorktreeConfig { dir: default_dir() }
    }
}

impl Default for ZoxideConfig {
    fn default() -> (r: Self)
        ensures
            r.enabled,
    {
        ZoxideConfig { enabled: default_zoxide_enabled() }
    }
}

impl Default for FzfConfig {
    fn default() -> (r: Self)
        ensures
            r.enabled && r.options@.len() == 0,
    {
        FzfConfig { enabled: default_fzf_enabled(), options: Vec::new() }
    }
}

impl Default for TmuxBehavior {
    fn default() -> (r: Self)
        ensures
            r == TmuxBehavior::Auto,
    {
        TmuxBehavior::Auto
    }
}

impl Default for TmuxConfig {
    fn default() -> (r: Self)
        ensures
            r.behavior == TmuxBehavior::Auto && r.create@ == "window"@,
    {
        TmuxConfig { behavior: TmuxBehavior::Auto, create: default_tmux_create() }
    }
}

impl Default for GhConfig {
    fn default() -> (r: Self)
        ensures
            r.enabled,
    {
        GhConfig { enabled: default_gh_enabled() }
    }
}

impl IntegrationsConfig {
    /// Whether these are the default integration settings.
    pub open spec fn is_default(&self) -> bool {
        &&& self.zoxide.enabled
        &&& self.fzf.enabled && self.fzf.options@.len() == 0
        &&& self.tmux.behavior == TmuxBehavior::Auto && self.tmux.create@ == "window"@
        &&& self.gh.enabled
    }

    pub open spec fn same_as(&self, o: &Self) -> bool {
        &&& self.zoxide.enabled == o.zoxide.enabled
        &&& self.fzf.enabled == o.fzf.enabled && seqs(self.fzf.options@) == seqs(o.fzf.options@)
        &&& self.tmux.behavior == o.tmux.behavior && self.tmux.create@ == o.tmux.create@
        &&& self.gh.enabled == o.gh.enabled
    }

    /// A copy of these settings.
    pub fn duplicate(&self) -> (r: Self)
        ensures
            r.same_as(self),
    {
        IntegrationsConfig {
            zoxide: ZoxideConfig { enabled: self.zoxide.enabled },
            fzf: FzfConfig { enabled: self.fzf.enabled, options: copy_strings(&self.fzf.options) },
            tmux: TmuxConfig { behavior: self.tmux.behavior, create: self.tmux.create.clone() },
            gh: GhConfig { enabled: self.gh.enabled },
        }
    }
}

impl Default for IntegrationsConfig {
    fn default() -> (r: Self)
        ensures
            r.is_default(),
    {
        IntegrationsConfig {
            zoxide: ZoxideConfig::default(),
            fzf: FzfConfig::default(),
            tmux: TmuxConfig::default(),
            gh: GhConfig::default(),
        }
    }
}

impl Default for Config {
    fn default() -> (r: Self)
        ensures
            r.worktree.dir@ == default_dir_spec(),
            r.hooks.create.run@.len() == 0 && r.hooks.create.copy@.len() == 0 && r.hooks.create.link@.len() == 0,
            r.hooks.delete.run@.len() == 0 && r.hooks.delete.copy@.len() == 0 && r.hooks.delete.link@.len() == 0,
            r.integrations.is_default(),
    {
        Config { hooks: Hooks::default(), worktree: WorktreeConfig::default(), integrations: IntegrationsConfig::default() }
    }
}

pub open spec fn local_config_name() -> Seq<char> {
    ".ofsht.toml"@
}

impl Config {
    /// This configuration overridden by `other`: hooks of both, this one's
    /// first; worktree and integration settings of `other`.
    pub fn merge(&self, other: &Self) -> (r: Self)
        ensures
            r.hooks.create.model() == self.hooks.create.merge_model(&other.hooks.create),
            r.hooks.delete.model() == self.hooks.delete.merge_model(&other.hooks.delete),
            r.worktree.dir@ == other.worktree.dir@,
            r.integrations.same_as(&other.integrations),
    {
        Config {
            hooks: self.hooks.merge(&other.hooks),
            worktree: WorktreeConfig { dir: other.worktree.dir.clone() },
            integrations: other.integrations.duplicate(),
        }
    }

    /// The project configuration file in `repo_root`.
    pub fn local_config_path_from(repo_root: &str) -> (r: String)
        ensures
            r@ == join_path(repo_root@, local_config_name()),
    {
        crate::paths::join_paths(repo_root, ".ofsht.toml")
    }

    /// The project configuration file in the current directory.
    pub fn local_config_path() -> (r: String)
        ensures
            r@ == local_config_name(),
    {
        String::from_str(".ofsht.toml")
    }

    /// The configuration in force, from what was read: a project file wins,
    /// with the integration settings of the global file (default ones when
    /// there is none); else the global file; else the defaults.
    pub fn from_loaded(local: Option<Config>, global_integrations: Option<IntegrationsConfig>, global: Option<Config>) -> (r: Config)
        ensures
            match local {
                Some(l) => {
                    &&& r.hooks == l.hooks
                    &&& r.worktree == l.worktree
                    &&& match global_integrations {
                        Some(g) => r.integrations == g,
                        None => r.integrations.is_default(),
                    }
                },
                None => match global {
                    Some(g) => r == g,
                    None => r.worktree.dir@ == default_dir_spec() && r.integrations.is_default(),
                },
            },
    {
        match local {
            Some(l) => {
                let integrations = match global_integrations {
                    Some(g) => g,
                    None => IntegrationsConfig::default(),
                };
                Config { hooks: l.hooks, worktree: l.worktree, integrations }
            },
            None => match global {
                Some(g) => g,
                None => Config::default(),
            },
        }
    }
}

/// Which configuration files `init` writes: both when neither flag is
/// given, else the one asked for.
pub fn init_scopes(scope_global: bool, scope_local: bool) -> (r: (bool, bool))
    ensures
        r.0 == (scope_global || !scope_local),
        r.1 == (scope_local || !scope_global),
{
    (scope_global || !scope_local, scope_local || !scope_global)
}

/// Whether `add` opens tmux: `--no-tmux` wins, then `--tmux`, then the
/// configured behavior (only `Always` opens it by itself).
pub fn should_use_tmux(behavior: TmuxBehavior, tmux_flag: bool, no_tmux_flag: bool) -> (r: bool)
    ensures
        r == (!no_tmux_flag && (tmux_flag || behavior == TmuxBehavior::Always)),
{
    if no_tmux_flag {
        return false;
    }
    if tmux_flag {
        return true;
    }
    match behavior {
        TmuxBehavior::Always => true,
        _ => false,
    }
}

} // verus!
