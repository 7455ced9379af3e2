//! Terminal colors for messages and listings.
use vstd::prelude::*;

use owo_colors::OwoColorize;

verus! {

/// When to color output.
#[derive(Debug, Clone, Copy, PartialEq, Eq, Structural)]
pub enum ColorMode {
    /// Always use colors.
    Always,
    /// Color when the error stream supports it.
    Auto,
    /// Never use colors.
    Never,
}

impl Default for ColorMode {
    fn default() -> (r: Self)
        ensures
            r == ColorMode::Auto,
    {
        ColorMode::Auto
    }
}

/// ASCII lower case of one character.
pub open spec fn ascii_lower(c: char) -> char {
    if 'A' <= c && c <= 'Z' {
        ((c as u8) + 32) as char
    } else {
        c
    }
}

/// `str::eq_ignore_ascii_case`.
pub open spec fn eq_ignore_ascii_case(a: Seq<char>, b: Seq<char>) -> bool {
    a.len() == b.len() && forall|i: int| 0 <= i < a.len() ==> ascii_lower(a[i]) == ascii_lower(b[i])
}

fn lower(c: char) -> (r: char)
    ensures
        r == ascii_lower(c),
{
    if 'A' <= c && c <= 'Z' {
        ((c as u8) + 32) as char
    } else {
        c
    }
}

/// Compares two strings ignoring ASCII case.
pub fn equals_ignore_ascii_case(a: &str, b: &str) -> (r: bool)
    ensures
        r == eq_ignore_ascii_case(a@, b@),
{
    let x = crate::text::chars_of(a);
    let y = crate::text::chars_of(b);
    if x.len() != y.len() {
        return false;
    }
    let mut i: usize = 0;
    while i < x.len()
        invariant
            x@ == a@,
            y@ == b@,
            x@.len() == y@.len(),
            i <= x@.len(),
            forall|k: int| 0 <= k < i ==> ascii_lower(a@[k]) == ascii_lower(b@[k]),
        decreases x@.len() - i,
    {
        if lower(x[i]) != lower(y[i]) {
            return false;
        }
        i += 1;
    }
    true
}

/// The mode a name stands for, any ASCII case.
pub open spec fn mode_named(s: Seq<char>) -> Option<ColorMode> {
    if eq_ignore_ascii_case(s, "always"@) {
        Some(ColorMode::Always)
    } else if eq_ignore_ascii_case(s, "auto"@) {
        Some(ColorMode::Auto)
    } else if eq_ignore_ascii_case(s, "never"@) {
        Some(ColorMode::Never)
    } else {
        None
    }
}

/// `on` is a coloring decision `mode` allows: `Always` colors, `Never`
/// does not, `Auto` may do either.
pub open spec fn colored_by(mode: ColorMode, on: bool) -> bool {
    (mode == ColorMode::Always ==> on) && (mode == ColorMode::Never ==> !on)
}

/// The sequence that ends any color.
pub open spec fn reset() -> Seq<char> {
    "\x1b[0m"@
}

/// `text` between the opening sequence `code` and a reset when `enabled`;
/// `text` itself otherwise.
pub open spec fn painted(code: Seq<char>, text: Seq<char>, enabled: bool) -> Seq<char> {
    if enabled {
        code + text + reset()
    } else {
        text
    }
}

/// Wraps `text` in the color `code` when `enabled`: see `painted`.
pub fn paint(code: &str, text: &str, enabled: bool) -> (r: String)
    ensures
        r@ == painted(code@, text@, enabled),
{
    if enabled {
        String::from_str(code).concat(text).concat("\x1b[0m")
    } else {
        String::from_str(text)
    }
}

/// Relies on `supports_color::on_cached`: whether standard error takes
/// colors, as detected once per process from the terminal and environment.
#[verifier::external_body]
fn stderr_supports_color() -> (r: bool) {
    supports_color::on_cached(supports_color::Stream::Stderr).is_some()
}

impl ColorMode {
    /// Parses a mode name in any ASCII case.
    pub fn from_name(s: &str) -> (r: Result<ColorMode, String>)
        ensures
            match mode_named(s@) {
                Some(m) => r == Ok::<ColorMode, String>(m),
                None => r is Err,
            },
    {
        if equals_ignore_ascii_case(s, "always") {
            Ok(ColorMode::Always)
        } else if equals_ignore_ascii_case(s, "auto") {
            Ok(ColorMode::Auto)
        } else if equals_ignore_ascii_case(s, "never") {
            Ok(ColorMode::Never)
        } else {
            Err(String::from_str("Invalid color mode: ").concat(s).concat(
                ". Expected one of: always, auto, never",
            ))
        }
    }

    /// The mode to use: the command-line flag when given, else `Never` when
    /// `NO_COLOR` is set or the terminal is `dumb`, else `Auto`.
    pub fn resolve(cli_mode: Option<Self>, no_color_set: bool, term: Option<&str>) -> (r: Self)
        ensures
            cli_mode is Some ==> r == cli_mode->0,
            cli_mode is None ==> r == (if no_color_set || (term is Some && term->0@ == "dumb"@) {
                ColorMode::Never
            } else {
                ColorMode::Auto
            }),
    {
        match cli_mode {
            Some(m) => m,
            None => {
                if no_color_set {
                    return ColorMode::Never;
                }
                match term {
                    Some(t) => {
                        let dumb = String::from_str("dumb");
                        if String::from_str(t) == dumb {
                            ColorMode::Never
                        } else {
                            ColorMode::Auto
                        }
                    },
                    None => ColorMode::Auto,
                }
            },
        }
    }

    /// Whether to color: always for `Always`, never for `Never`, and for
    /// `Auto` when standard error supports colors.
    pub fn should_colorize(self) -> (r: bool)
        ensures
            colored_by(self, r),
    {
        match self {
            ColorMode::Always => true,
            ColorMode::Auto => stderr_supports_color(),
            ColorMode::Never => false,
        }
    }

    /// The main worktree marker, green when colored.
    pub fn colorize_main_worktree(self, text: &str) -> (r: String)
        ensures
            exists|on: bool| #[trigger] colored_by(self, on) && r@ == painted("\x1b[32m"@, text@, on),
    {
        let on = self.should_colorize();
        assert(colored_by(self, on));
        paint("\x1b[32m", text, on)
    }

    /// A branch name, cyan when colored.
    pub fn colorize_branch(self, text: &str) -> (r: String)
        ensures
            exists|on: bool| #[trigger] colored_by(self, on) && r@ == painted("\x1b[36m"@, text@, on),
    {
        let on = self.should_colorize();
        assert(colored_by(self, on));
        paint("\x1b[36m", text, on)
    }

    /// The detached-HEAD marker, yellow when colored.
    pub fn colorize_detached(self, text: &str) -> (r: String)
        ensures
            exists|on: bool| #[trigger] colored_by(self, on) && r@ == painted("\x1b[33m"@, text@, on),
    {
        let on = self.should_colorize();
        assert(colored_by(self, on));
        paint("\x1b[33m", text, on)
    }

    /// Secondary information (hash, age), gray when colored.
    pub fn colorize_secondary(self, text: &str) -> (r: String)
        ensures
            exists|on: bool| #[trigger] colored_by(self, on) && r@ == painted("\x1b[90m"@, text@, on),
    {
        let on = self.should_colorize();
        assert(colored_by(self, on));
        paint("\x1b[90m", text, on)
    }

    /// The active worktree marker, bold magenta when colored.
    pub fn colorize_active_marker(self, text: &str) -> (r: String)
        ensures
            exists|on: bool| #[trigger] colored_by(self, on) && r@ == painted("\x1b[1;35m"@, text@, on),
    {
        let on = self.should_colorize();
        assert(colored_by(self, on));
        paint("\x1b[1;35m", text, on)
    }
}

impl std::str::FromStr for ColorMode {
    type Err = String;

    fn from_str(s: &str) -> Result<ColorMode, String> {
        ColorMode::from_name(s)
    }
}

/// Kind of a status message.
#[derive(Debug, Clone, Copy, PartialEq, Eq, Structural)]
pub enum MessageStyle {
    Success,
    Info,
    Warn,
    Error,
}

pub open spec fn style_symbol(s: MessageStyle) -> Seq<char> {
    match s {
        MessageStyle::Success => "✓"@,
        MessageStyle::Info => "ℹ"@,
        MessageStyle::Warn => "⚠"@,
        MessageStyle::Error => "✗"@,
    }
}

/// Relies on owo-colors: `bright_green().bold()` writes bold, then bright
/// green, the text, the default color and a reset.
#[verifier::external_body]
fn bright_green_bold(s: &str) -> (r: String)
    ensures
        r@ == "\x1b[1m"@ + "\x1b[92m"@ + s@ + "\x1b[39m"@ + "\x1b[0m"@,
{
    s.bright_green().bold().to_string()
}

/// Relies on owo-colors: `bright_cyan()` writes bright cyan, the text and
/// the default color.
#[verifier::external_body]
fn bright_cyan(s: &str) -> (r: String)
    ensures
        r@ == "\x1b[96m"@ + s@ + "\x1b[39m"@,
{
    s.bright_cyan().to_string()
}

/// Relies on owo-colors: `bright_yellow()` writes bright yellow, the text
/// and the default color.
#[verifier::external_body]
fn bright_yellow(s: &str) -> (r: String)
    ensures
        r@ == "\x1b[93m"@ + s@ + "\x1b[39m"@,
{
    s.bright_yellow().to_string()
}

/// Relies on owo-colors: `bright_red().bold()` writes bold, then bright red,
/// the text, the default color and a reset.
#[verifier::external_body]
fn bright_red_bold(s: &str) -> (r: String)
    ensures
        r@ == "\x1b[1m"@ + "\x1b[91m"@ + s@ + "\x1b[39m"@ + "\x1b[0m"@,
{
    s.bright_red().bold().to_string()
}

/// Relies on owo-colors: `dimmed()` writes the dim sequence, the text and a
/// reset.
#[verifier::external_body]
fn dimmed(s: &str) -> (r: String)
    ensures
        r@ == "\x1b[2m"@ + s@ + "\x1b[0m"@,
{
    s.dimmed().to_string()
}

/// The symbol of a style as colored output shows it.
pub open spec fn styled_symbol(s: MessageStyle) -> Seq<char> {
    match s {
        MessageStyle::Success => "\x1b[1m"@ + "\x1b[92m"@ + style_symbol(s) + "\x1b[39m"@ + "\x1b[0m"@,
        MessageStyle::Info => "\x1b[96m"@ + style_symbol(s) + "\x1b[39m"@,
        MessageStyle::Warn => "\x1b[93m"@ + style_symbol(s) + "\x1b[39m"@,
        MessageStyle::Error => "\x1b[1m"@ + "\x1b[91m"@ + style_symbol(s) + "\x1b[39m"@ + "\x1b[0m"@,
    }
}

impl MessageStyle {
    fn symbol(self) -> (r: &'static str)
        ensures
            r@ == style_symbol(self),
    {
        match self {
            MessageStyle::Success => "✓",
            MessageStyle::Info => "ℹ",
            MessageStyle::Warn => "⚠",
            MessageStyle::Error => "✗",
        }
    }

    fn plain_symbol(self) -> (r: &'static str)
        ensures
            r@ == style_symbol(self),
    {
        self.symbol()
    }

    fn colored_symbol(self) -> (r: String)
        ensures
            r@ == styled_symbol(self),
    {
        let sym = self.symbol();
        match self {
            MessageStyle::Success => bright_green_bold(sym),
            MessageStyle::Info => bright_cyan(sym),
            MessageStyle::Warn => bright_yellow(sym),
            MessageStyle::Error => bright_red_bold(sym),
        }
    }

    /// A message in this style.
    pub fn format(self, mode: ColorMode, message: &str) -> (r: FormattedMessage)
        ensures
            r.style == self,
            r.mode == mode,
            r.message@ == message@,
    {
        FormattedMessage { style: self, mode, message: String::from_str(message) }
    }
}

/// A status message: a symbol, a space and the text.
pub struct FormattedMessage {
    pub style: MessageStyle,
    pub mode: ColorMode,
    pub message: String,
}

impl FormattedMessage {
    /// The message as shown: the symbol, colored when the mode says so, a
    /// space and the text.
    pub fn to_string(&self) -> (r: String)
        ensures
            exists|on: bool|
                r@ == (if on {
                    styled_symbol(self.style)
                } else {
                    style_symbol(self.style)
                }) + " "@ + self.message@ && #[trigger] colored_by(self.mode, on),
    {
        let on = self.mode.should_colorize();
        assert(colored_by(self.mode, on));
        let sym = if on {
            self.style.colored_symbol()
        } else {
            String::from_str(self.style.plain_symbol())
        };
        sym.concat(" ").concat(self.message.as_str())
    }
}

/// A success message.
pub fn success(mode: ColorMode, message: &str) -> (r: FormattedMessage)
    ensures
        r.style == MessageStyle::Success && r.mode == mode && r.message@ == message@,
{
    MessageStyle::Success.format(mode, message)
}

/// An informational or progress message.
pub fn info(mode: ColorMode, message: &str) -> (r: FormattedMessage)
    ensures
        r.style == MessageStyle::Info && r.mode == mode && r.message@ == message@,
{
    MessageStyle::Info.format(mode, message)
}

/// A warning.
pub fn warn(mode: ColorMode, message: &str) -> (r: FormattedMessage)
    ensures
        r.style == MessageStyle::Warn && r.mode == mode && r.message@ == message@,
{
    MessageStyle::Warn.format(mode, message)
}

/// An error message.
pub fn error(mode: ColorMode, message: &str) -> (r: FormattedMessage)
    ensures
        r.style == MessageStyle::Error && r.mode == mode && r.message@ == message@,
{
    MessageStyle::Error.format(mode, message)
}

/// Secondary text, dimmed when colored.
pub struct DimmedText {
    pub mode: ColorMode,
    pub text: String,
}

impl DimmedText {
    pub fn to_string(&self) -> (r: String)
        ensures
            exists|on: bool|
                r@ == (if on {
                    "\x1b[2m"@ + self.text@ + "\x1b[0m"@
                } else {
                    self.text@
                }) && #[trigger] colored_by(self.mode, on),
    {
        let on = self.mode.should_colorize();
        assert(colored_by(self.mode, on));
        if on {
            dimmed(self.text.as_str())
        } else {
            self.text.clone()
        }
    }
}

/// Dims `text` when colored.
pub fn dim(mode: ColorMode, text: &str) -> (r: DimmedText)
    ensures
        r.mode == mode && r.text@ == text@,
{
    DimmedText { mode, text: String::from_str(text) }
}

/// A line of nested output.
pub struct TreeItem {
    pub mode: ColorMode,
    pub message: String,
    pub is_last: bool,
    pub indent_level: usize,
}

/// Two spaces per level.
pub open spec fn indent(level: nat) -> Seq<char>
    decreases level,
{
    if level == 0 {
        seq![]
    } else {
        indent((level - 1) as nat) + "  "@
    }
}

pub open spec fn tree_branch(is_last: bool) -> Seq<char> {
    if is_last {
        "└─"@
    } else {
        "├─"@
    }
}

impl TreeItem {
    /// The line as shown: indentation, the branch glyph (dimmed when
    /// colored), a space and the message.
    pub fn to_string(&self) -> (r: String)
        ensures
            exists|on: bool|
                r@ == indent(self.indent_level as nat) + (if on {
                    "\x1b[2m"@ + tree_branch(self.is_last) + "\x1b[0m"@
                } else {
                    tree_branch(self.is_last)
                }) + " "@ + self.message@ && #[trigger] colored_by(self.mode, on),
    {
        let mut pad = String::new();
        let mut k: usize = 0;
        while k < self.indent_level
            invariant
                k <= self.indent_level,
                pad@ == indent(k as nat),
            decreases self.indent_level - k,
        {
            pad.append("  ");
            k += 1;
        }
        let glyph = if self.is_last { "└─" } else { "├─" };
        let on = self.mode.should_colorize();
        assert(colored_by(self.mode, on));
        let shown = if on { dimmed(glyph) } else { String::from_str(glyph) };
        pad.concat(shown.as_str()).concat(" ").concat(self.message.as_str())
    }
}

/// A line of nested output (hook steps and the like).
pub fn tree_item(mode: ColorMode, message: &str, is_last: bool, indent_level: usize) -> (r: TreeItem)
    ensures
        r.mode == mode && r.message@ == message@ && r.is_last == is_last && r.indent_level == indent_level,
{
    TreeItem { mode, message: String::from_str(message), is_last, indent_level }
}

} // verus!
