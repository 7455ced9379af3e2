//! Starting configuration files, adapted to the tools found on the machine.
use vstd::prelude::*;

verus! {

/// Which of the integrated tools are installed.
#[derive(Debug, Clone, Copy, PartialEq, Eq, Structural)]
pub struct TemplateContext {
    pub gh_available: bool,
    pub zoxide_available: bool,
    pub fzf_available: bool,
    pub tmux_available: bool,
}

pub const GLOBAL_HEAD: &'static str = r#"# ofsht global configuration
# This file contains default settings applied to all repositories.
# Project-specific settings in .ofsht.toml will override these values.

[worktree]
# Directory template for new worktrees
# Variables: {repo} = repository name, {branch} = branch name
# Relative paths are resolved from the main repository root
dir = "../{repo}-worktrees/{branch}"

[hooks.create]
# Commands to run after creating a worktree (executed in worktree directory)
run = [
    # "pnpm install",
]

# Files to copy from main repository to new worktree
copy = [
    # ".env.local",
    # ".vscode/settings.json",
]

# Files to symlink from main repository to new worktree
# Supports glob patterns: "*.env", "config/**/*.json"
link = [
    # ".idea/workspace.xml",
]

[hooks.delete]
# Commands to run before deleting a worktree (executed in worktree directory)
run = [
    # "pnpm store prune",
]

"#;

pub const ZOXIDE_ON: &'static str = "[integration.zoxide]
# Enable automatic zoxide integration
# When true, new worktrees are automatically added to zoxide database
enabled = true";

pub const ZOXIDE_OFF: &'static str = "[integration.zoxide]
# Enable automatic zoxide integration
# zoxide not detected - install from https://github.com/ajeetdsouza/zoxide
enabled = false";

pub const FZF_ON: &'static str = "[integration.fzf]
# Enable fzf integration for interactive worktree selection
# When enabled, running `ofsht cd` or `ofsht rm` without arguments
# will launch fzf for interactive selection
enabled = true
# Additional fzf command-line options (optional)
# options = [\"--height=50%\", \"--border\", \"--reverse\"]";

pub const FZF_OFF: &'static str = "[integration.fzf]
# Enable fzf integration for interactive worktree selection
# fzf not detected - install from https://github.com/junegunn/fzf
enabled = false";

pub const TMUX_ON: &'static str = "[integration.tmux]
# Configure tmux integration behavior
# behavior: \"auto\" (use --tmux flag), \"always\" (always enabled), \"never\" (disabled)
behavior = \"auto\"
# Determines what to create: a new window or split pane
create = \"window\"  # \"window\" or \"pane\"";

pub const TMUX_OFF: &'static str = "[integration.tmux]
# Configure tmux integration behavior
# tmux not detected - install from https://github.com/tmux/tmux
behavior = \"never\"
create = \"window\"";

pub const GH_ON: &'static str = "[integration.gh]
# Enable GitHub CLI (gh) integration
# When enabled, `ofsht add #123` will create worktrees from GitHub issues/PRs
# Requires the gh CLI to be installed (https://cli.github.com/)
enabled = true";

pub const GH_OFF: &'static str = "[integration.gh]
# Enable GitHub CLI (gh) integration
# gh CLI not detected - install from https://cli.github.com/
enabled = false";

pub const LOCAL_TEMPLATE: &'static str = r#"# ofsht project configuration
# Location: .ofsht.toml (main repository root)
#
# This file is ALWAYS loaded from the main repository root, even when
# running ofsht commands from worktrees. This ensures consistent behavior
# across all worktrees.
#
# This file overrides global settings for this specific repository.
# Add this file to .gitignore if settings are user-specific,
# or commit it if settings should be shared with the team.

[hooks.create]
# Commands to run after creating a worktree
run = [
    # "pnpm install",
]

# Files to copy from main repository
copy = [
    # ".env.local",
]

# Files to symlink (supports glob patterns)
link = [
    # ".idea/workspace.xml",
]

[hooks.delete]
# Commands to run before deleting a worktree
run = []
"#;

pub open spec fn choose_text(on: bool, yes: &str, no: &str) -> Seq<char> {
    if on {
        yes@
    } else {
        no@
    }
}

fn pick(on: bool, yes: &'static str, no: &'static str) -> (r: &'static str)
    ensures
        r@ == choose_text(on, yes, no),
{
    if on {
        yes
    } else {
        no
    }
}

impl TemplateContext {
    /// The global template: the common settings, then one section per
    /// integration, enabled when its tool is installed.
    pub open spec fn global_text(&self) -> Seq<char> {
        GLOBAL_HEAD@ + choose_text(self.zoxide_available, ZOXIDE_ON, ZOXIDE_OFF) + "\n\n"@ + choose_text(
            self.fzf_available,
            FZF_ON,
            FZF_OFF,
        ) + "\n\n"@ + choose_text(self.tmux_available, TMUX_ON, TMUX_OFF) + "\n\n"@ + choose_text(
            self.gh_available,
            GH_ON,
            GH_OFF,
        ) + "\n"@
    }

    /// The global configuration template: see `global_text`.
    pub fn generate_global(&self) -> (r: String)
        ensures
            r@ == self.global_text(),
    {
        String::from_str(GLOBAL_HEAD).concat(pick(self.zoxide_available, ZOXIDE_ON, ZOXIDE_OFF)).concat(
            "\n\n",
        ).concat(pick(self.fzf_available, FZF_ON, FZF_OFF)).concat("\n\n").concat(
            pick(self.tmux_available, TMUX_ON, TMUX_OFF),
        ).concat("\n\n").concat(pick(self.gh_available, GH_ON, GH_OFF)).concat("\n")
    }

    /// The project configuration template: hooks only.
    pub fn generate_local(&self) -> (r: String)
        ensures
            r@ == LOCAL_TEMPLATE@,
    {
        String::from_str(LOCAL_TEMPLATE)
    }
}

} // verus!
