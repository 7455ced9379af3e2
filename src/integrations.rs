//! Integrations: GitHub issue numbers, tmux window names, fzf items, and the
//! interfaces of the outside tools.
use vstd::prelude::*;

use crate::porcelain::{branch_tag, heads_prefix, worktree_tag};
use crate::text::{chars_of, has_prefix, line_spans, lines, span_equals, span_has_prefix, span_matches, spans_match, substring};

verus! {

pub open spec fn is_digit(c: char) -> bool {
    '0' <= c && c <= '9'
}

pub open spec fn digit_value(c: char) -> nat {
    (c as u32 - '0' as u32) as nat
}

/// Value of a string of decimal digits.
pub open spec fn digits_value(s: Seq<char>) -> nat
    decreases s.len(),
{
    if s.len() == 0 {
        0
    } else {
        digits_value(s.drop_last()) * 10 + digit_value(s.last())
    }
}

pub open spec fn all_digits(d: Seq<char>) -> bool {
    forall|i: int| 0 <= i < d.len() ==> is_digit(#[trigger] d[i])
}

/// `s` without one leading `+`.
pub open spec fn unsigned_part(s: Seq<char>) -> Seq<char> {
    if s.len() > 0 && s[0] == '+' {
        s.skip(1)
    } else {
        s
    }
}

/// What `str::parse::<u32>` accepts: an optional `+` and at least one
/// digit, with a value that fits in 32 bits.
pub open spec fn u32_text(s: Seq<char>) -> Option<u32> {
    let d = unsigned_part(s);
    if d.len() > 0 && all_digits(d) && digits_value(d) <= u32::MAX {
        Some(digits_value(d) as u32)
    } else {
        None
    }
}

proof fn lemma_digits_value_grows(s: Seq<char>, k: int)
    requires
        0 <= k <= s.len(),
        forall|i: int| 0 <= i < s.len() ==> is_digit(s[i]),
    ensures
        digits_value(s.take(k)) <= digits_value(s),
    decreases s.len() - k,
{
    if k < s.len() {
        lemma_digits_value_grows(s, k + 1);
        assert(s.take(k + 1).drop_last() =~= s.take(k));
    } else {
        assert(s.take(k) =~= s);
    }
}

/// Parses a decimal `u32` as `str::parse` does: see `u32_text`.
pub fn parse_u32(s: &str) -> (r: Option<u32>)
    ensures
        r == u32_text(s@),
{
    let cs = chars_of(s);
    let n = cs.len();
    let start: usize = if n > 0 && cs[0] == '+' { 1 } else { 0 };
    let ghost d = unsigned_part(s@);
    assert(d =~= cs@.skip(start as int));
    if start == n {
        return None;
    }
    let mut value: u64 = 0;
    let mut i: usize = start;
    assert(d.take(0) =~= seq![]);
    while i < n
        invariant
            start <= i <= n,
            n == cs@.len(),
            cs@ == s@,
            d == cs@.skip(start as int),
            d == unsigned_part(s@),
            forall|k: int| 0 <= k < i - start ==> is_digit(d[k]),
            value == digits_value(d.take(i - start)),
            value <= u32::MAX,
        decreases n - i,
    {
        let c = cs[i];
        if c < '0' || c > '9' {
            proof {
                let k = (i - start) as int;
                assert(0 <= k < d.len());
                assert(!is_digit(d[k]));
                assert(!all_digits(d));
            }
            return None;
        }
        assert(d.take(i - start + 1).drop_last() =~= d.take(i - start));
        let v = value * 10 + ((c as u32) - ('0' as u32)) as u64;
        if v > 4294967295u64 {
            proof {
                assert(digits_value(d.take(i - start + 1)) > u32::MAX);
                let j = i - start + 1;
                let hi = n - start;
                if all_digits(d) {
                    lemma_digits_value_grows(d, j);
                    assert(digits_value(d) > u32::MAX);
                }
                assert(u32_text(s@) is None);
            }
            return None;
        }
        value = v;
        i += 1;
    }
    assert(d.take(i - start) =~= d);
    assert(all_digits(d));
    Some(value as u32)
}

/// A branch argument: a GitHub issue or pull request number, or a name.
#[derive(Debug, PartialEq, Eq)]
pub enum BranchInput {
    /// `#123`.
    Github(u32),
    /// Anything else.
    Plain(String),
}

impl BranchInput {
    /// `#` followed by a number is a GitHub reference; anything else is a
    /// plain branch name.
    pub fn parse(input: &str) -> (r: Self)
        ensures
            (input@.len() > 0 && input@[0] == '#' && u32_text(input@.skip(1)) is Some) ==> r
                == BranchInput::Github(u32_text(input@.skip(1))->0),
            !(input@.len() > 0 && input@[0] == '#' && u32_text(input@.skip(1)) is Some) ==> (match r {
                BranchInput::Plain(s) => s@ == input@,
                BranchInput::Github(_) => false,
            }),
    {
        let n = input.unicode_len();
        if n > 0 && input.get_char(0) == '#' {
            let rest = substring(input, 1, n);
            assert(rest@ =~= input@.skip(1));
            match parse_u32(rest.as_str()) {
                Some(number) => {
                    return BranchInput::Github(number);
                },
                None => {},
            }
        }
        BranchInput::Plain(String::from_str(input))
    }
}

pub open spec fn digit_char(d: nat) -> char {
    (('0' as u32) + d) as char
}

/// Decimal digits of `n`, without leading zeros.
pub open spec fn decimal(n: nat) -> Seq<char>
    decreases n,
{
    if n < 10 {
        seq![digit_char(n)]
    } else {
        decimal(n / 10).push(digit_char(n % 10))
    }
}

fn digit_text(d: u32) -> (r: &'static str)
    requires
        d < 10,
    ensures
        r@ == seq![digit_char(d as nat)],
{
    proof {
        reveal_strlit("0");
        reveal_strlit("1");
        reveal_strlit("2");
        reveal_strlit("3");
        reveal_strlit("4");
        reveal_strlit("5");
        reveal_strlit("6");
        reveal_strlit("7");
        reveal_strlit("8");
        reveal_strlit("9");
    }
    let r = match d {
        0 => "0",
        1 => "1",
        2 => "2",
        3 => "3",
        4 => "4",
        5 => "5",
        6 => "6",
        7 => "7",
        8 => "8",
        _ => "9",
    };
    assert(r@ =~= seq![digit_char(d as nat)]);
    r
}

/// Decimal text of `n`.
pub fn decimal_text(n: u32) -> (r: String)
    ensures
        r@ == decimal(n as nat),
    decreases n,
{
    if n < 10 {
        String::from_str(digit_text(n))
    } else {
        let head = decimal_text(n / 10);
        let r = head.concat(digit_text(n % 10));
        assert(r@ =~= decimal((n / 10) as nat).push(digit_char((n % 10) as nat)));
        r
    }
}

/// The branch created for an issue: `issue-<number>`.
pub fn build_issue_branch(number: u32) -> (r: String)
    ensures
        r@ == "issue-"@ + decimal(number as nat),
{
    String::from_str("issue-").concat(decimal_text(number).as_str())
}

/// Longest tmux window name.
pub const WINDOW_NAME_MAX: usize = 50;

pub open spec fn window_char(c: char) -> char {
    if c == '/' || c == ' ' {
        '·'
    } else {
        c
    }
}

/// A tmux window name for a branch: `/` and spaces become `·`, at most
/// `WINDOW_NAME_MAX` characters are kept, and an empty name becomes
/// `worktree`.
pub open spec fn window_name(branch: Seq<char>) -> Seq<char> {
    if branch.len() == 0 {
        "worktree"@
    } else {
        let m = branch.map_values(|c: char| window_char(c));
        if m.len() > WINDOW_NAME_MAX {
            m.take(WINDOW_NAME_MAX as int)
        } else {
            m
        }
    }
}

/// A tmux window name for a branch: see `window_name`.
pub fn sanitize_window_name(branch: &str) -> (r: String)
    ensures
        r@ == window_name(branch@),
{
    let n = branch.unicode_len();
    if n == 0 {
        return String::from_str("worktree");
    }
    let ghost m = branch@.map_values(|c: char| window_char(c));
    let limit = if n > WINDOW_NAME_MAX { WINDOW_NAME_MAX } else { n };
    let mut out = String::new();
    let mut i: usize = 0;
    proof {
        reveal_strlit("·");
    }
    while i < limit
        invariant
            limit <= n,
            n == branch@.len(),
            m == branch@.map_values(|c: char| window_char(c)),
            i <= limit,
            out@ == m.take(i as int),
        decreases limit - i,
    {
        let c = branch.get_char(i);
        proof {
            reveal_strlit("·");
            assert(m[i as int] == window_char(c));
        }
        if c == '/' || c == ' ' {
            out.append("·");
        } else {
            out.append(branch.substring_char(i, i + 1));
        }
        assert(out@ =~= m.take(i + 1));
        i += 1;
    }
    assert(limit == n ==> m.take(i as int) =~= m);
    out
}


/// `char::is_whitespace`: the Unicode `White_Space` characters.
pub open spec fn is_space(c: char) -> bool {
    ('\t' <= c && c <= '\r') || c == ' ' || c == '\u{85}' || c == '\u{a0}' || c == '\u{1680}' || ('\u{2000}'
        <= c && c <= '\u{200a}') || c == '\u{2028}' || c == '\u{2029}' || c == '\u{202f}' || c == '\u{205f}'
        || c == '\u{3000}'
}

fn space(c: char) -> (r: bool)
    ensures
        r == is_space(c),
{
    ('\t' <= c && c <= '\r') || c == ' ' || c == '\u{85}' || c == '\u{a0}' || c == '\u{1680}' || ('\u{2000}'
        <= c && c <= '\u{200a}') || c == '\u{2028}' || c == '\u{2029}' || c == '\u{202f}' || c == '\u{205f}'
        || c == '\u{3000}'
}

/// Leading white space of `s` in characters.
pub open spec fn lead_space(s: Seq<char>) -> nat
    decreases s.len(),
{
    if s.len() > 0 && is_space(s[0]) {
        1 + lead_space(s.skip(1))
    } else {
        0
    }
}

/// Trailing white space of `s` in characters.
pub open spec fn trail_space(s: Seq<char>) -> nat
    decreases s.len(),
{
    if s.len() > 0 && is_space(s.last()) {
        1 + trail_space(s.drop_last())
    } else {
        0
    }
}

/// `str::trim`: `s` without leading and trailing white space.
pub open spec fn trimmed(s: Seq<char>) -> Seq<char> {
    let a = lead_space(s);
    let rest = s.skip(a as int);
    rest.take(rest.len() - trail_space(rest))
}

proof fn lemma_lead_space(s: Seq<char>, j: int)
    requires
        0 <= j <= s.len(),
        forall|t: int| 0 <= t < j ==> is_space(s[t]),
        j == s.len() || !is_space(s[j]),
    ensures
        lead_space(s) == j,
    decreases j,
{
    if j > 0 {
        lemma_lead_space(s.skip(1), j - 1);
    }
}

proof fn lemma_trail_space(s: Seq<char>, j: int)
    requires
        0 <= j <= s.len(),
        forall|t: int| s.len() - j <= t < s.len() ==> is_space(s[t]),
        j == s.len() || !is_space(s[s.len() - j - 1]),
    ensures
        trail_space(s) == j,
    decreases j,
{
    if j > 0 {
        lemma_trail_space(s.drop_last(), j - 1);
    }
}

/// The span of `cs[a..b]` left once white space is trimmed off both ends.
pub fn trim_span(cs: &Vec<char>, a: usize, b: usize) -> (r: (usize, usize))
    requires
        a <= b <= cs@.len(),
    ensures
        a <= r.0 <= r.1 <= b,
        cs@.subrange(r.0 as int, r.1 as int) == trimmed(cs@.subrange(a as int, b as int)),
{
    let ghost s = cs@.subrange(a as int, b as int);
    let mut x = a;
    while x < b && space(cs[x])
        invariant
            a <= x <= b,
            b <= cs@.len(),
            s == cs@.subrange(a as int, b as int),
            forall|t: int| 0 <= t < x - a ==> is_space(s[t]),
        decreases b - x,
    {
        x += 1;
    }
    proof {
        lemma_lead_space(s, x - a);
    }
    let ghost rest = s.skip(x - a);
    assert(rest =~= cs@.subrange(x as int, b as int));
    let mut y = b;
    while y > x && space(cs[y - 1])
        invariant
            x <= y <= b,
            b <= cs@.len(),
            rest == cs@.subrange(x as int, b as int),
            forall|t: int| rest.len() - (b - y) <= t < rest.len() ==> is_space(rest[t]),
        decreases y - x,
    {
        y -= 1;
    }
    proof {
        lemma_trail_space(rest, b - y);
        assert(rest.take(rest.len() - (b - y)) =~= cs@.subrange(x as int, y as int));
    }
    (x, y)
}

/// An entry of the fzf picker: the text shown and the value picked.
#[derive(Debug, Clone, PartialEq, Eq)]
pub struct FzfItem {
    pub display: String,
    pub value: String,
}

/// Shown text for a worktree: its branch and path, or `(detached)` and path.
pub open spec fn item_display(branch: Option<Seq<char>>, path: Seq<char>) -> Seq<char> {
    match branch {
        Some(b) => b + " "@ + path,
        None => "(detached) "@ + path,
    }
}

/// Items so far, open path, open branch.
pub type ItemScan = (Seq<(Seq<char>, Seq<char>)>, Option<Seq<char>>, Option<Seq<char>>);

/// How one trimmed line changes the item scan: a blank line closes the open
/// worktree, `worktree ` sets the path, `branch refs/heads/` sets the
/// branch, `detached` clears it.
pub open spec fn item_step(st: ItemScan, raw: Seq<char>) -> ItemScan {
    let line = trimmed(raw);
    if line.len() == 0 {
        match st.1 {
            Some(p) => (st.0.push((item_display(st.2, p), p)), None, None),
            None => st,
        }
    } else if has_prefix(line, worktree_tag()) {
        (st.0, Some(line.skip(worktree_tag().len() as int)), st.2)
    } else if has_prefix(line, branch_tag()) {
        let r = line.skip(branch_tag().len() as int);
        if has_prefix(r, heads_prefix()) {
            (st.0, st.1, Some(r.skip(heads_prefix().len() as int)))
        } else {
            st
        }
    } else if line == "detached"@ {
        (st.0, st.1, None)
    } else {
        st
    }
}

pub open spec fn item_scan(ls: Seq<Seq<char>>) -> ItemScan
    decreases ls.len(),
{
    if ls.len() == 0 {
        (seq![], None, None)
    } else {
        item_step(item_scan(ls.drop_last()), ls.last())
    }
}

/// The picker items of a porcelain listing, one per worktree, in order.
pub open spec fn worktree_items(text: Seq<char>) -> Seq<(Seq<char>, Seq<char>)> {
    let st = item_scan(lines(text));
    match st.1 {
        Some(p) => st.0.push((item_display(st.2, p), p)),
        None => st.0,
    }
}

pub open spec fn item_models(v: Seq<FzfItem>) -> Seq<(Seq<char>, Seq<char>)> {
    v.map_values(|i: FzfItem| (i.display@, i.value@))
}

fn make_item(branch: Option<String>, path: String) -> (r: FzfItem)
    ensures
        r.display@ == item_display(crate::text::opt_seq(branch), path@),
        r.value@ == path@,
{
    let display = match branch {
        Some(b) => b.concat(" ").concat(path.as_str()),
        None => String::from_str("(detached) ").concat(path.as_str()),
    };
    FzfItem { display, value: path }
}

/// The fzf items for a porcelain listing: see `worktree_items`.
pub fn build_worktree_items(porcelain_output: &str) -> (r: Vec<FzfItem>)
    ensures
        item_models(r@) == worktree_items(porcelain_output@),
{
    let cs = chars_of(porcelain_output);
    let spans = line_spans(&cs);
    let wt = chars_of("worktree ");
    let br = chars_of("branch ");
    let heads = chars_of("refs/heads/");
    let detached = chars_of("detached");
    let ghost ls = lines(porcelain_output@);
    let mut items: Vec<FzfItem> = Vec::new();
    let mut path: Option<String> = None;
    let mut branch: Option<String> = None;
    let mut i: usize = 0;
    assert(ls.take(0) =~= seq![]);
    while i < spans.len()
        invariant
            cs@ == porcelain_output@,
            ls == lines(porcelain_output@),
            spans@.len() == ls.len(),
            spans_match(cs@, spans@, ls, cs@.len() as int),
            wt@ == worktree_tag(),
            br@ == branch_tag(),
            heads@ == heads_prefix(),
            detached@ == "detached"@,
            i <= spans@.len(),
            item_scan(ls.take(i as int)) == (item_models(items@), crate::text::opt_seq(path), crate::text::opt_seq(branch)),
        decreases spans@.len() - i,
    {
        let (a0, b0) = spans[i];
        proof {
            assert(span_matches(cs@, spans@[i as int], ls[i as int], cs@.len() as int));
            assert(ls.take(i + 1).drop_last() =~= ls.take(i as int));
            assert(ls.take(i + 1).last() == ls[i as int]);
        }
        let (a, b) = trim_span(&cs, a0, b0);
        let ghost line = trimmed(ls[i as int]);
        assert(cs@.subrange(a as int, b as int) == line);
        if a == b {
            match path.take() {
                Some(p) => {
                    let ghost before = items@;
                    let item = make_item(branch.take(), p);
                    items.push(item);
                    assert(item_models(items@) =~= item_models(before).push((item.display@, item.value@)));
                    branch = None;
                },
                None => {},
            }
        } else if span_has_prefix(&cs, a, b, &wt) {
            let p = substring(porcelain_output, a + wt.len(), b);
            assert(p@ =~= line.skip(worktree_tag().len() as int));
            path = Some(p);
        } else if span_has_prefix(&cs, a, b, &br) {
            let start = a + br.len();
            assert(cs@.subrange(start as int, b as int) =~= line.skip(branch_tag().len() as int));
            if span_has_prefix(&cs, start, b, &heads) {
                let name = substring(porcelain_output, start + heads.len(), b);
                assert(name@ =~= line.skip(branch_tag().len() as int).skip(heads_prefix().len() as int));
                branch = Some(name);
            }
        } else if span_equals(&cs, a, b, &detached) {
            branch = None;
        }
        i += 1;
    }
    assert(ls.take(i as int) =~= ls);
    match path {
        Some(p) => {
            let ghost before = items@;
            let item = make_item(branch, p);
            items.push(item);
            assert(item_models(items@) =~= item_models(before).push((item.display@, item.value@)));
        },
        None => {},
    }
    items
}

/// Whether a copy or link pattern is a literal path or a glob.
#[derive(Debug, Clone, Copy, PartialEq, Eq, Structural)]
pub enum PatternKind {
    /// No glob metacharacter.
    Literal,
    /// Holds one of `* ? [ ] { }`.
    Glob,
}

pub open spec fn is_glob_char(c: char) -> bool {
    c == '*' || c == '?' || c == '[' || c == ']' || c == '{' || c == '}'
}

/// A pattern is a glob when it holds a glob metacharacter.
pub fn detect_pattern_kind(pattern: &str) -> (r: PatternKind)
    ensures
        r == (if exists|i: int| 0 <= i < pattern@.len() && is_glob_char(#[trigger] pattern@[i]) {
            PatternKind::Glob
        } else {
            PatternKind::Literal
        }),
{
    let cs = chars_of(pattern);
    let mut i: usize = 0;
    while i < cs.len()
        invariant
            cs@ == pattern@,
            i <= cs@.len(),
            forall|k: int| 0 <= k < i ==> !is_glob_char(#[trigger] pattern@[k]),
        decreases cs@.len() - i,
    {
        let c = cs[i];
        if c == '*' || c == '?' || c == '[' || c == ']' || c == '{' || c == '}' {
            assert(is_glob_char(pattern@[i as int]));
            return PatternKind::Glob;
        }
        i += 1;
    }
    PatternKind::Literal
}


/// What a pull request is checked out as: a fork's branch that already
/// exists locally becomes `pr-<number>-<ref with / as ->` from `FETCH_HEAD`;
/// another fork branch keeps its name from `FETCH_HEAD`; a branch of this
/// repository is used as it is when it exists locally, else created from
/// `origin/<ref>`.
pub open spec fn pr_checkout(number: nat, head_ref: Seq<char>, is_fork: bool, branch_exists: bool) -> (Seq<char>, Option<Seq<char>>) {
    if is_fork {
        if branch_exists {
            (
                "pr-"@ + decimal(number) + "-"@ + head_ref.map_values(|c: char| if c == '/' { '-' } else { c }),
                Some("FETCH_HEAD"@),
            )
        } else {
            (head_ref, Some("FETCH_HEAD"@))
        }
    } else if branch_exists {
        (head_ref, None)
    } else {
        (head_ref, Some("origin/"@ + head_ref))
    }
}

fn dashed(s: &str) -> (r: String)
    ensures
        r@ == s@.map_values(|c: char| if c == '/' { '-' } else { c }),
{
    let n = s.unicode_len();
    let ghost m = s@.map_values(|c: char| if c == '/' { '-' } else { c });
    let mut out = String::new();
    let mut i: usize = 0;
    while i < n
        invariant
            n == s@.len(),
            m == s@.map_values(|c: char| if c == '/' { '-' } else { c }),
            i <= n,
            out@ == m.take(i as int),
        decreases n - i,
    {
        proof {
            reveal_strlit("-");
        }
        if s.get_char(i) == '/' {
            out.append("-");
        } else {
            out.append(s.substring_char(i, i + 1));
        }
        assert(out@ =~= m.take(i + 1));
        i += 1;
    }
    assert(m.take(n as int) =~= m);
    out
}

/// The branch and start point for checking out a pull request: see
/// `pr_checkout`.
pub fn pr_branch_and_start(number: u32, head_ref: &str, is_fork: bool, branch_exists: bool) -> (r: (String, Option<String>))
    ensures
        (r.0@, crate::text::opt_seq(r.1)) == pr_checkout(number as nat, head_ref@, is_fork, branch_exists),
{
    if is_fork {
        if branch_exists {
            let name = String::from_str("pr-").concat(decimal_text(number).as_str()).concat("-").concat(
                dashed(head_ref).as_str(),
            );
            (name, Some(String::from_str("FETCH_HEAD")))
        } else {
            (String::from_str(head_ref), Some(String::from_str("FETCH_HEAD")))
        }
    } else if branch_exists {
        (String::from_str(head_ref), None)
    } else {
        (String::from_str(head_ref), Some(String::from_str("origin/").concat(head_ref)))
    }
}

} // verus!
