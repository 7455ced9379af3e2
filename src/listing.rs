//! The aligned, optionally colored worktree table of `ls`.
use vstd::prelude::*;
use vstd::utf8::encode_utf8;

use crate::color::{painted, paint, ColorMode, colored_by};
use crate::config::Config;
use crate::paths::{home_dir, calculate_relative_path, calculate_worktree_root_from_paths, display_path_with_home, home_display, relative_to, worktree_root};
use crate::porcelain::{SimpleWorktreeEntry, WorktreeEntry};
use crate::text::{opt_seq, seqs};

verus! {

/// Bound on the timestamps handled, in seconds from the epoch; chrono's
/// dates lie well inside it.
pub const TIMESTAMP_LIMIT: i64 = 1_000_000_000_000_000;

/// Bound of `chrono::TimeDelta::seconds`.
pub const DELTA_LIMIT: i64 = 9_223_372_036_854_775;

/// What chrono-humanize writes for an age of `seconds` (rough, past tense).
pub uninterp spec fn rough_age(seconds: int) -> Seq<char>;

/// Relies on chrono-humanize: `HumanTime::to_text_en` with rough accuracy
/// in the past tense, of a `chrono::TimeDelta` of whole seconds (which
/// panics beyond `DELTA_LIMIT`); the text depends on the duration alone.
#[verifier::external_body]
fn humanize_age(seconds: i64) -> (r: String)
    requires
        -DELTA_LIMIT <= seconds <= DELTA_LIMIT,
    ensures
        r@ == rough_age(seconds as int),
{
    chrono_humanize::HumanTime::from(chrono::TimeDelta::seconds(seconds)).to_text_en(
        chrono_humanize::Accuracy::Rough,
        chrono_humanize::Tense::Past,
    )
}

/// Width of a cell: its length in UTF-8 bytes, as `str::len` gives it.
pub open spec fn width(s: Seq<char>) -> nat {
    (encode_utf8(s).len() as usize) as nat
}

/// `n` spaces.
pub open spec fn spaces(n: nat) -> Seq<char>
    decreases n,
{
    if n == 0 {
        seq![]
    } else {
        spaces((n - 1) as nat) + " "@
    }
}

/// The cells of one row before coloring and padding: shown path, hash,
/// path below the worktree root, bracketed branch, age, active flag.
pub type RowModel = (Seq<char>, Seq<char>, Option<Seq<char>>, Seq<char>, Seq<char>, bool);

pub open spec fn branch_cell(index: int, branch: Option<Seq<char>>) -> Seq<char> {
    if index == 0 {
        "[@]"@
    } else {
        match branch {
            Some(b) => "["@ + b + "]"@,
            None => "[detached]"@,
        }
    }
}

pub open spec fn age_cell(time: Option<i64>, now: i64) -> Seq<char> {
    match time {
        Some(t) => rough_age(now - t),
        None => "–"@,
    }
}

pub open spec fn entry_paths(entries: Seq<WorktreeEntry>) -> Seq<Seq<char>> {
    entries.map_values(|e: WorktreeEntry| e.path@)
}

/// The directory the worktrees other than the main one share, when the
/// relative column is asked for.
pub open spec fn table_root(entries: Seq<WorktreeEntry>, relative: bool) -> Option<Seq<char>> {
    if relative && entries.len() > 0 {
        worktree_root(entry_paths(entries).skip(1))
    } else {
        None
    }
}

pub open spec fn row_of(
    entries: Seq<WorktreeEntry>,
    times: Seq<Option<i64>>,
    now: i64,
    relative: bool,
    home: Option<Seq<char>>,
    i: int,
) -> RowModel {
    let e = entries[i];
    (
        home_display(e.path@, home),
        e.hash@,
        if i != 0 {
            match table_root(entries, relative) {
                Some(root) => relative_to(e.path@, root),
                None => None,
            }
        } else {
            None
        },
        branch_cell(i, opt_seq(e.branch)),
        age_cell(times[i], now),
        e.is_active,
    )
}

/// Widest cell of each column over `rows`: path, hash, relative path, branch.
pub open spec fn widths(rows: Seq<RowModel>) -> (nat, nat, nat, nat)
    decreases rows.len(),
{
    if rows.len() == 0 {
        (0, 0, 0, 0)
    } else {
        let w = widths(rows.drop_last());
        let r = rows.last();
        let rel = match r.2 {
            Some(x) => width(x),
            None => 0,
        };
        (
            if width(r.0) > w.0 { width(r.0) } else { w.0 },
            if width(r.1) > w.1 { width(r.1) } else { w.1 },
            if rel > w.2 { rel } else { w.2 },
            if width(r.3) > w.3 { width(r.3) } else { w.3 },
        )
    }
}

pub open spec fn pad_to(w: nat, s: Seq<char>) -> Seq<char> {
    if w > width(s) {
        spaces((w - width(s)) as nat)
    } else {
        seq![]
    }
}

/// One line of the table for row `r` at position `i`, with column widths
/// `w`, colored when `on`.
pub open spec fn line_of(r: RowModel, i: int, w: (nat, nat, nat, nat), show_path: bool, on: bool) -> Seq<char> {
    let marker = if r.5 {
        painted("\x1b[1;35m"@, "*"@, on)
    } else {
        " "@
    };
    let branch = if i == 0 {
        painted("\x1b[32m"@, r.3, on)
    } else if r.3 == "[detached]"@ {
        painted("\x1b[33m"@, r.3, on)
    } else {
        painted("\x1b[36m"@, r.3, on)
    };
    let age = painted("\x1b[90m"@, r.4, on);
    let rel = match r.2 {
        Some(x) => x,
        None => seq![],
    };
    let tail = branch + pad_to(w.3, r.3) + "  "@ + age;
    if show_path {
        marker + " "@ + r.0 + pad_to(w.0, r.0) + "  "@ + r.1 + pad_to(w.1, r.1) + "  "@ + rel + pad_to(w.2, rel)
            + "  "@ + tail
    } else if w.2 > 0 {
        marker + " "@ + r.1 + pad_to(w.1, r.1) + "  "@ + rel + pad_to(w.2, rel) + "  "@ + tail
    } else {
        marker + " "@ + r.1 + pad_to(w.1, r.1) + "  "@ + tail
    }
}

/// Rows with the path cell blanked when paths are not shown.
pub open spec fn shown_row(r: RowModel, show_path: bool) -> RowModel {
    if show_path {
        r
    } else {
        (seq![], r.1, r.2, r.3, r.4, r.5)
    }
}

pub open spec fn rows_of(
    entries: Seq<WorktreeEntry>,
    times: Seq<Option<i64>>,
    now: i64,
    show_path: bool,
    relative: bool,
    home: Option<Seq<char>>,
) -> Seq<RowModel> {
    Seq::new(entries.len(), |i: int| shown_row(row_of(entries, times, now, relative, home, i), show_path))
}

/// The table's lines for a given home directory and coloring decision.
pub open spec fn table_lines(
    entries: Seq<WorktreeEntry>,
    times: Seq<Option<i64>>,
    now: i64,
    show_path: bool,
    relative: bool,
    home: Option<Seq<char>>,
    on: bool,
) -> Seq<Seq<char>> {
    let rows = rows_of(entries, times, now, show_path, relative, home);
    Seq::new(rows.len(), |i: int| line_of(rows[i], i, widths(rows), show_path, on))
}

struct Row {
    path: String,
    hash: String,
    rel: Option<String>,
    branch: String,
    age: String,
    active: bool,
}

impl Row {
    spec fn model(&self) -> RowModel {
        (self.path@, self.hash@, opt_seq(self.rel), self.branch@, self.age@, self.active)
    }
}

spec fn row_models(v: Seq<Row>) -> Seq<RowModel> {
    v.map_values(|r: Row| r.model())
}

fn spaces_text(n: usize) -> (r: String)
    ensures
        r@ == spaces(n as nat),
{
    let mut s = String::new();
    let mut k: usize = 0;
    while k < n
        invariant
            k <= n,
            s@ == spaces(k as nat),
        decreases n - k,
    {
        s.append(" ");
        k += 1;
    }
    s
}

fn padding(w: usize, s: &String) -> (r: String)
    requires
        w as nat >= width(s@),
    ensures
        r@ == pad_to(w as nat, s@),
{
    let n = s.as_str().len();
    if w > n {
        spaces_text(w - n)
    } else {
        String::new()
    }
}

fn bracketed(b: &Option<String>, index: usize) -> (r: String)
    ensures
        r@ == branch_cell(index as int, opt_seq(*b)),
{
    if index == 0 {
        return String::from_str("[@]");
    }
    match b {
        Some(x) => String::from_str("[").concat(x.as_str()).concat("]"),
        None => String::from_str("[detached]"),
    }
}

/// Formats the worktree table: one line per entry, columns padded to a
/// common width; the path column when `show_path`, the column of paths
/// below the worktrees' common root when `config` is given. Ages are taken
/// at time `now`; all times are seconds from the epoch.
pub fn format_worktree_table(
    entries: &Vec<WorktreeEntry>,
    commit_times: &Vec<Option<i64>>,
    now: i64,
    show_path: bool,
    color_mode: ColorMode,
    config: Option<&Config>,
) -> (r: Vec<String>)
    requires
        entries@.len() == commit_times@.len(),
        -TIMESTAMP_LIMIT <= now <= TIMESTAMP_LIMIT,
        forall|i: int|
            0 <= i < commit_times@.len() && (#[trigger] commit_times@[i]) is Some ==> -TIMESTAMP_LIMIT
                <= commit_times@[i]->0 <= TIMESTAMP_LIMIT,
    ensures
        exists|home: Option<Seq<char>>, on: bool|
            colored_by(color_mode, on) && seqs(r@) == #[trigger] table_lines(
                entries@,
                commit_times@,
                now,
                show_path,
                config is Some,
                home,
                on,
            ),
{
    let home = home_dir();
    let ghost hv = opt_seq(home);
    let on = color_mode.should_colorize();
    let relative = config.is_some();
    let mut paths: Vec<String> = Vec::new();
    let mut k: usize = 1;
    while k < entries.len()
        invariant
            1 <= k,
            k <= entries@.len() || k == 1,
            seqs(paths@) == entry_paths(entries@).skip(1).take(k - 1),
        decreases entries@.len() - k,
    {
        let ghost before = paths@;
        paths.push(entries[k].path.clone());
        assert(seqs(paths@) =~= entry_paths(entries@).skip(1).take(k as int)) by {
            assert(seqs(paths@) =~= seqs(before).push(entries@[k as int].path@));
        }
        k += 1;
    }
    let root = if relative && entries.len() > 0 {
        assert(seqs(paths@) =~= entry_paths(entries@).skip(1));
        calculate_worktree_root_from_paths(&paths)
    } else {
        None
    };
    assert(opt_seq(root) == table_root(entries@, relative));
    let ghost spec_rows = rows_of(entries@, commit_times@, now, show_path, relative, hv);
    let mut rows: Vec<Row> = Vec::new();
    let mut wp: usize = 0;
    let mut wh: usize = 0;
    let mut wr: usize = 0;
    let mut wb: usize = 0;
    let mut i: usize = 0;
    assert(spec_rows.take(0) =~= seq![]);
    while i < entries.len()
        invariant
            entries@.len() == commit_times@.len(),
            -TIMESTAMP_LIMIT <= now <= TIMESTAMP_LIMIT,
            forall|j: int|
                0 <= j < commit_times@.len() && (#[trigger] commit_times@[j]) is Some ==> -TIMESTAMP_LIMIT
                    <= commit_times@[j]->0 <= TIMESTAMP_LIMIT,
            hv == opt_seq(home),
            opt_seq(root) == table_root(entries@, relative),
            spec_rows == rows_of(entries@, commit_times@, now, show_path, relative, hv),
            i <= entries@.len(),
            row_models(rows@) == spec_rows.take(i as int),
            (wp as nat, wh as nat, wr as nat, wb as nat) == widths(spec_rows.take(i as int)),
        decreases entries@.len() - i,
    {
        let e = &entries[i];
        let path = if show_path {
            match &home {
                Some(h) => display_path_with_home(e.path.as_str(), Some(h.as_str())),
                None => display_path_with_home(e.path.as_str(), None),
            }
        } else {
            String::new()
        };
        let rel = if i != 0 {
            match &root {
                Some(rt) => calculate_relative_path(e.path.as_str(), rt.as_str()),
                None => None,
            }
        } else {
            None
        };
        let age = match commit_times[i] {
            Some(t) => humanize_age(now - t),
            None => String::from_str("–"),
        };
        let row = Row {
            path,
            hash: e.hash.clone(),
            rel,
            branch: bracketed(&e.branch, i),
            age,
            active: e.is_active,
        };
        assert(row.model() == spec_rows[i as int]);
        let pw = row.path.as_str().len();
        let hw = row.hash.as_str().len();
        let rw = match &row.rel {
            Some(x) => x.as_str().len(),
            None => 0,
        };
        let bw = row.branch.as_str().len();
        if pw > wp {
            wp = pw;
        }
        if hw > wh {
            wh = hw;
        }
        if rw > wr {
            wr = rw;
        }
        if bw > wb {
            wb = bw;
        }
        let ghost before = rows@;
        rows.push(row);
        proof {
            assert(spec_rows.take(i + 1).drop_last() =~= spec_rows.take(i as int));
            assert(spec_rows.take(i + 1).last() == spec_rows[i as int]);
            assert(row_models(rows@) =~= row_models(before).push(spec_rows[i as int]));
            assert(row_models(rows@) =~= spec_rows.take(i + 1));
        }
        i += 1;
    }
    assert(spec_rows.take(i as int) =~= spec_rows);
    let ghost w = widths(spec_rows);
    let ghost spec_lines = table_lines(entries@, commit_times@, now, show_path, relative, hv, on);
    let mut out: Vec<String> = Vec::new();
    let mut j: usize = 0;
    while j < rows.len()
        invariant
            row_models(rows@) == spec_rows,
            spec_rows.len() == entries@.len(),
            w == widths(spec_rows),
            (wp as nat, wh as nat, wr as nat, wb as nat) == w,
            spec_lines == table_lines(entries@, commit_times@, now, show_path, relative, hv, on),
            spec_rows == rows_of(entries@, commit_times@, now, show_path, relative, hv),
            j <= rows@.len(),
            seqs(out@) == spec_lines.take(j as int),
        decreases rows@.len() - j,
    {
        let r = &rows[j];
        proof {
            assert(r.model() == spec_rows[j as int]);
            lemma_widths_bound(spec_rows, j as int);
        }
        let marker = if r.active { paint("\x1b[1;35m", "*", on) } else { String::from_str(" ") };
        let branch = if j == 0 {
            paint("\x1b[32m", r.branch.as_str(), on)
        } else if r.branch == String::from_str("[detached]") {
            paint("\x1b[33m", r.branch.as_str(), on)
        } else {
            paint("\x1b[36m", r.branch.as_str(), on)
        };
        let age = paint("\x1b[90m", r.age.as_str(), on);
        let rel = match &r.rel {
            Some(x) => x.clone(),
            None => String::new(),
        };
        let tail = branch.concat(padding(wb, &r.branch).as_str()).concat("  ").concat(age.as_str());
        let head = marker.concat(" ");
        let line = if show_path {
            head.concat(r.path.as_str()).concat(padding(wp, &r.path).as_str()).concat("  ").concat(
                r.hash.as_str(),
            ).concat(padding(wh, &r.hash).as_str()).concat("  ").concat(rel.as_str()).concat(
                padding(wr, &rel).as_str(),
            ).concat("  ").concat(tail.as_str())
        } else if wr > 0 {
            head.concat(r.hash.as_str()).concat(padding(wh, &r.hash).as_str()).concat("  ").concat(
                rel.as_str(),
            ).concat(padding(wr, &rel).as_str()).concat("  ").concat(tail.as_str())
        } else {
            head.concat(r.hash.as_str()).concat(padding(wh, &r.hash).as_str()).concat("  ").concat(
                tail.as_str(),
            )
        };
        proof {
            assert(line@ =~= line_of(spec_rows[j as int], j as int, w, show_path, on));
        }
        let ghost before = out@;
        out.push(line);
        assert(seqs(out@) =~= spec_lines.take(j + 1)) by {
            assert(seqs(out@) =~= seqs(before).push(line@));
        }
        j += 1;
    }
    assert(spec_lines.take(j as int) =~= spec_lines);
    assert(colored_by(color_mode, on));
    assert(seqs(out@) == table_lines(entries@, commit_times@, now, show_path, config is Some, hv, on));
    out
}

proof fn lemma_widths_bound(rows: Seq<RowModel>, j: int)
    requires
        0 <= j < rows.len(),
    ensures
        widths(rows).0 >= width(rows[j].0),
        widths(rows).1 >= width(rows[j].1),
        widths(rows).2 >= match rows[j].2 {
            Some(x) => width(x),
            None => 0,
        },
        widths(rows).3 >= width(rows[j].3),
    decreases rows.len(),
{
    if j < rows.len() - 1 {
        lemma_widths_bound(rows.drop_last(), j);
        assert(rows.drop_last()[j] == rows[j]);
    }
}


/// The line piped output shows for entry `i`: `@` for the main worktree,
/// the branch of another, the displayed path of a detached one.
pub open spec fn plain_line(e: SimpleWorktreeEntry, i: int, home: Option<Seq<char>>) -> Seq<char> {
    if i == 0 {
        "@"@
    } else {
        match e.branch {
            Some(b) => b@,
            None => home_display(e.path@, home),
        }
    }
}

pub open spec fn plain_lines(r: Seq<String>, entries: Seq<SimpleWorktreeEntry>, home: Option<Seq<char>>) -> bool {
    r.len() == entries.len() && forall|i: int| 0 <= i < r.len() ==> (#[trigger] r[i])@ == plain_line(entries[i], i, home)
}

/// The lines of `ls` when piped without paths: one name per worktree that
/// `cd` and `rm` accept.
pub fn plain_listing(entries: &Vec<SimpleWorktreeEntry>) -> (r: Vec<String>)
    ensures
        exists|home: Option<Seq<char>>| #[trigger] plain_lines(r@, entries@, home),
{
    let home = home_dir();
    let ghost hv = opt_seq(home);
    let mut out: Vec<String> = Vec::new();
    let mut i: usize = 0;
    while i < entries.len()
        invariant
            hv == opt_seq(home),
            i <= entries@.len(),
            out@.len() == i,
            forall|k: int| 0 <= k < i ==> (#[trigger] out@[k])@ == plain_line(entries@[k], k, hv),
        decreases entries@.len() - i,
    {
        let line = if i == 0 {
            String::from_str("@")
        } else {
            match &entries[i].branch {
                Some(b) => b.clone(),
                None => match &home {
                    Some(h) => display_path_with_home(entries[i].path.as_str(), Some(h.as_str())),
                    None => display_path_with_home(entries[i].path.as_str(), None),
                },
            }
        };
        out.push(line);
        i += 1;
    }
    assert(plain_lines(out@, entries@, hv));
    out
}

} // verus!
