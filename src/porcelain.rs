//! Parsing of `git worktree list --porcelain` output.
use vstd::prelude::*;

use crate::paths::{canonicalize_existing, components, same_path};
use crate::text::{seqs, clone_opt, span_matches, spans_match, opt_seq, chars_of, has_prefix, line_spans, lines, span_equals, span_has_prefix, substring};

verus! {

pub open spec fn worktree_tag() -> Seq<char> {
    "worktree "@
}

pub open spec fn head_tag() -> Seq<char> {
    "HEAD "@
}

pub open spec fn branch_tag() -> Seq<char> {
    "branch "@
}

pub open spec fn heads_prefix() -> Seq<char> {
    "refs/heads/"@
}

/// Length of an abbreviated commit hash.
pub const HASH_LEN: usize = 8;

/// A branch reference with its `refs/heads/` prefix removed, when it has one.
pub open spec fn short_branch(r: Seq<char>) -> Seq<char> {
    if has_prefix(r, heads_prefix()) {
        r.skip(heads_prefix().len() as int)
    } else {
        r
    }
}

/// The first `HASH_LEN` characters of a commit id (all of them when shorter).
pub open spec fn abbreviate(h: Seq<char>) -> Seq<char> {
    if h.len() <= HASH_LEN {
        h
    } else {
        h.take(HASH_LEN as int)
    }
}

/// One block of porcelain output: its path, its branch, its abbreviated hash.
pub type SpecBlock = (Seq<char>, Option<Seq<char>>, Option<Seq<char>>);

/// Finished blocks, and the block still open.
pub type ScanState = (Seq<SpecBlock>, Option<SpecBlock>);

pub open spec fn close_block(st: ScanState) -> Seq<SpecBlock> {
    match st.1 {
        Some(b) => st.0.push(b),
        None => st.0,
    }
}

/// How one line changes the scan: `worktree ` opens a block (closing the open
/// one), `HEAD ` and `branch ` fill the open block, a blank line closes it.
pub open spec fn scan_step(st: ScanState, line: Seq<char>) -> ScanState {
    if has_prefix(line, worktree_tag()) {
        (close_block(st), Some((line.skip(worktree_tag().len() as int), None, None)))
    } else if has_prefix(line, head_tag()) {
        match st.1 {
            Some(b) => (st.0, Some((b.0, b.1, Some(abbreviate(line.skip(head_tag().len() as int)))))),
            None => st,
        }
    } else if has_prefix(line, branch_tag()) {
        match st.1 {
            Some(b) => (st.0, Some((b.0, Some(short_branch(line.skip(branch_tag().len() as int))), b.2))),
            None => st,
        }
    } else if line.len() == 0 {
        (close_block(st), None)
    } else {
        st
    }
}

pub open spec fn scan_lines(ls: Seq<Seq<char>>) -> ScanState
    decreases ls.len(),
{
    if ls.len() == 0 {
        (seq![], None)
    } else {
        scan_step(scan_lines(ls.drop_last()), ls.last())
    }
}

/// The blocks of a porcelain text, in the order Git printed them.
pub open spec fn blocks_of(text: Seq<char>) -> Seq<SpecBlock> {
    close_block(scan_lines(lines(text)))
}

/// One parsed block.
pub struct Block {
    pub path: String,
    pub branch: Option<String>,
    pub hash: Option<String>,
}

impl Block {
    pub open spec fn model(&self) -> SpecBlock {
        (self.path@, opt_seq(self.branch), opt_seq(self.hash))
    }
}

pub open spec fn models(bs: Seq<Block>) -> Seq<SpecBlock> {
    bs.map_values(|b: Block| b.model())
}

pub open spec fn state_model(done: Seq<Block>, cur: Option<Block>) -> ScanState {
    (
        models(done),
        match cur {
            Some(b) => Some(b.model()),
            None => None,
        },
    )
}

fn close_open(done: &mut Vec<Block>, cur: Option<Block>)
    ensures
        models(final(done)@) == close_block(state_model(old(done)@, cur)),
{
    match cur {
        Some(b) => {
            done.push(b);
            assert(models(final(done)@) =~= models(old(done)@).push(b.model()));
        },
        None => {},
    }
}

/// Splits porcelain output into blocks.
pub fn scan_blocks(output: &str) -> (r: Vec<Block>)
    ensures
        models(r@) == blocks_of(output@),
{
    let cs = chars_of(output);
    let spans = line_spans(&cs);
    let wt = chars_of("worktree ");
    let head = chars_of("HEAD ");
    let br = chars_of("branch ");
    let heads = chars_of("refs/heads/");
    let ghost ls = lines(output@);
    let mut done: Vec<Block> = Vec::new();
    let mut cur: Option<Block> = None;
    let mut i: usize = 0;
    assert(ls.take(0) =~= seq![]);
    while i < spans.len()
        invariant
            cs@ == output@,
            ls == lines(output@),
            spans@.len() == ls.len(),
            spans_match(cs@, spans@, ls, cs@.len() as int),
            wt@ == worktree_tag(),
            head@ == head_tag(),
            br@ == branch_tag(),
            heads@ == heads_prefix(),
            i <= spans@.len(),
            state_model(done@, cur) == scan_lines(ls.take(i as int)),
        decreases spans@.len() - i,
    {
        let (a, b) = spans[i];
        let ghost line = ls[i as int];
        assert(span_matches(cs@, spans@[i as int], ls[i as int], cs@.len() as int));
        assert(cs@.subrange(a as int, b as int) == line);
        assert(ls.take(i + 1).drop_last() =~= ls.take(i as int));
        assert(ls.take(i + 1).last() == line);
        if span_has_prefix(&cs, a, b, &wt) {
            let path = substring(output, a + wt.len(), b);
            assert(path@ =~= line.skip(worktree_tag().len() as int));
            let prev = cur.take();
            close_open(&mut done, prev);
            cur = Some(Block { path, branch: None, hash: None });
        } else if span_has_prefix(&cs, a, b, &head) {
            match cur.take() {
                Some(blk) => {
                    let start = a + head.len();
                    let end = if b - start > HASH_LEN { start + HASH_LEN } else { b };
                    let h = substring(output, start, end);
                    assert(h@ =~= abbreviate(line.skip(head_tag().len() as int)));
                    cur = Some(Block { path: blk.path, branch: blk.branch, hash: Some(h) });
                },
                None => {},
            }
        } else if span_has_prefix(&cs, a, b, &br) {
            match cur.take() {
                Some(blk) => {
                    let start = a + br.len();
                    let name = if span_has_prefix(&cs, start, b, &heads) {
                        let n = substring(output, start + heads.len(), b);
                        assert(n@ =~= short_branch(line.skip(branch_tag().len() as int))) by {
                            assert(cs@.subrange(start as int, b as int) =~= line.skip(
                                branch_tag().len() as int,
                            ));
                        }
                        n
                    } else {
                        let n = substring(output, start, b);
                        assert(n@ =~= short_branch(line.skip(branch_tag().len() as int))) by {
                            assert(cs@.subrange(start as int, b as int) =~= line.skip(
                                branch_tag().len() as int,
                            ));
                        }
                        n
                    };
                    cur = Some(Block { path: blk.path, branch: Some(name), hash: blk.hash });
                },
                None => {},
            }
        } else if a == b {
            let prev = cur.take();
            close_open(&mut done, prev);
        }
        i += 1;
    }
    assert(ls.take(i as int) =~= ls);
    let last = cur.take();
    close_open(&mut done, last);
    done
}


/// A worktree with its path and branch only.
#[derive(Debug, Clone, PartialEq, Eq)]
pub struct SimpleWorktreeEntry {
    pub path: String,
    pub branch: Option<String>,
}

/// A worktree as listed: path, branch (none when detached), abbreviated
/// hash, and whether it is the caller's current worktree.
#[derive(Debug, Clone, PartialEq, Eq)]
pub struct WorktreeEntry {
    pub path: String,
    pub branch: Option<String>,
    pub hash: String,
    pub is_active: bool,
}

/// The hash shown for a block: its abbreviated `HEAD`, or `(unknown)`.
pub open spec fn hash_or_unknown(h: Option<Seq<char>>) -> Seq<char> {
    match h {
        Some(x) => x,
        None => "(unknown)"@,
    }
}

/// Parses porcelain output into path and branch of each worktree, in order.
pub fn parse_simple_worktree_entries(output: &str) -> (r: Vec<SimpleWorktreeEntry>)
    ensures
        r@.len() == blocks_of(output@).len(),
        forall|i: int|
            0 <= i < r@.len() ==> {
                &&& (#[trigger] r@[i]).path@ == blocks_of(output@)[i].0
                &&& opt_seq(r@[i].branch) == blocks_of(output@)[i].1
            },
{
    let blocks = scan_blocks(output);
    let ghost bs = blocks_of(output@);
    let mut out: Vec<SimpleWorktreeEntry> = Vec::new();
    let mut i: usize = 0;
    while i < blocks.len()
        invariant
            models(blocks@) == bs,
            bs == blocks_of(output@),
            i <= blocks@.len(),
            out@.len() == i,
            forall|k: int|
                0 <= k < i ==> {
                    &&& (#[trigger] out@[k]).path@ == bs[k].0
                    &&& opt_seq(out@[k].branch) == bs[k].1
                },
        decreases blocks@.len() - i,
    {
        assert(bs[i as int] == blocks@[i as int].model());
        let e = SimpleWorktreeEntry { path: blocks[i].path.clone(), branch: clone_opt(&blocks[i].branch) };
        out.push(e);
        i += 1;
    }
    out
}

/// Whether a worktree is the active one. With a canonical form of its path,
/// that form is compared with the canonical form of the active path (the
/// active path itself when it has none); without one, its path is compared
/// with the active path as given. Paths compare by components.
pub open spec fn active_match(
    canonical: Option<Seq<char>>,
    worktree_path: Seq<char>,
    active: Seq<char>,
    canonical_active: Option<Seq<char>>,
) -> bool {
    match canonical {
        Some(c) => components(c) == components(
            match canonical_active {
                Some(x) => x,
                None => active,
            },
        ),
        None => components(worktree_path) == components(active),
    }
}

pub open spec fn entry_active(
    active: Option<Seq<char>>,
    canonical_active: Option<Seq<char>>,
    canonical: Option<Seq<char>>,
    worktree_path: Seq<char>,
) -> bool {
    match active {
        Some(a) => active_match(canonical, worktree_path, a, canonical_active),
        None => false,
    }
}

pub open spec fn opt_str(o: Option<&str>) -> Option<Seq<char>> {
    match o {
        Some(s) => Some(s@),
        None => None,
    }
}

/// Compares a worktree with the active path: see `active_match`.
pub fn matches_active(canonical: Option<&str>, worktree_path: &str, active: &str, canonical_active: Option<&str>) -> (r: bool)
    ensures
        r == active_match(opt_str(canonical), worktree_path@, active@, opt_str(canonical_active)),
{
    match canonical {
        Some(c) => match canonical_active {
            Some(ca) => same_path(c, ca),
            None => same_path(c, active),
        },
        None => same_path(worktree_path, active),
    }
}

/// Parses porcelain output into worktree entries, given the canonical form
/// of the active path and of each worktree's path (none where the path
/// does not exist): entry `i` is active as `entry_active` says.
pub fn parse_worktree_entries_with(
    output: &str,
    active_path: Option<&str>,
    canonical_active: Option<&str>,
    canonical_paths: &Vec<Option<String>>,
) -> (r: Vec<WorktreeEntry>)
    requires
        canonical_paths@.len() == blocks_of(output@).len(),
    ensures
        r@.len() == blocks_of(output@).len(),
        forall|i: int|
            0 <= i < r@.len() ==> {
                &&& (#[trigger] r@[i]).path@ == blocks_of(output@)[i].0
                &&& opt_seq(r@[i].branch) == blocks_of(output@)[i].1
                &&& r@[i].hash@ == hash_or_unknown(blocks_of(output@)[i].2)
                &&& r@[i].is_active == entry_active(
                    opt_str(active_path),
                    opt_str(canonical_active),
                    opt_seq(canonical_paths@[i]),
                    blocks_of(output@)[i].0,
                )
            },
{
    let blocks = scan_blocks(output);
    let ghost bs = blocks_of(output@);
    let unknown = String::from_str("(unknown)");
    let mut out: Vec<WorktreeEntry> = Vec::new();
    let mut i: usize = 0;
    while i < blocks.len()
        invariant
            models(blocks@) == bs,
            bs == blocks_of(output@),
            canonical_paths@.len() == bs.len(),
            i <= blocks@.len(),
            out@.len() == i,
            unknown@ == "(unknown)"@,
            forall|k: int|
                0 <= k < i ==> {
                    &&& (#[trigger] out@[k]).path@ == bs[k].0
                    &&& opt_seq(out@[k].branch) == bs[k].1
                    &&& out@[k].hash@ == hash_or_unknown(bs[k].2)
                    &&& out@[k].is_active == entry_active(
                        opt_str(active_path),
                        opt_str(canonical_active),
                        opt_seq(canonical_paths@[k]),
                        bs[k].0,
                    )
                },
        decreases blocks@.len() - i,
    {
        assert(bs[i as int] == blocks@[i as int].model());
        let hash = match &blocks[i].hash {
            Some(h) => h.clone(),
            None => unknown.clone(),
        };
        let is_active = match active_path {
            Some(a) => match &canonical_paths[i] {
                Some(c) => matches_active(Some(c.as_str()), blocks[i].path.as_str(), a, canonical_active),
                None => matches_active(None, blocks[i].path.as_str(), a, canonical_active),
            },
            None => false,
        };
        let e = WorktreeEntry { path: blocks[i].path.clone(), branch: clone_opt(&blocks[i].branch), hash, is_active };
        out.push(e);
        i += 1;
    }
    out
}

/// Parses porcelain output into worktree entries, in the order Git listed
/// them; entry 0 is the main worktree. The canonical forms of the active
/// path and of each worktree path are read from the disk, and whatever it
/// answers, `is_active` is `entry_active` for those answers.
pub fn parse_worktree_entries(output: &str, active_path: Option<&str>) -> (r: Vec<WorktreeEntry>)
    ensures
        r@.len() == blocks_of(output@).len(),
        forall|i: int|
            0 <= i < r@.len() ==> {
                &&& (#[trigger] r@[i]).path@ == blocks_of(output@)[i].0
                &&& opt_seq(r@[i].branch) == blocks_of(output@)[i].1
                &&& r@[i].hash@ == hash_or_unknown(blocks_of(output@)[i].2)
            },
        exists|ca: Option<Seq<char>>, cps: Seq<Option<Seq<char>>>|
            cps.len() == r@.len() && #[trigger] entries_active(r@, opt_str(active_path), ca, cps, blocks_of(output@)),
{
    let blocks = scan_blocks(output);
    let ghost bs = blocks_of(output@);
    let mut canonical_paths: Vec<Option<String>> = Vec::new();
    let mut i: usize = 0;
    while i < blocks.len()
        invariant
            i <= blocks@.len(),
            canonical_paths@.len() == i,
        decreases blocks@.len() - i,
    {
        let c = match active_path {
            Some(_) => canonicalize_existing(blocks[i].path.as_str()),
            None => None,
        };
        canonical_paths.push(c);
        i += 1;
    }
    assert(bs.len() == blocks@.len());
    let canonical_active = match active_path {
        Some(a) => canonicalize_existing(a),
        None => None,
    };
    let r = match &canonical_active {
        Some(ca) => parse_worktree_entries_with(output, active_path, Some(ca.as_str()), &canonical_paths),
        None => parse_worktree_entries_with(output, active_path, None, &canonical_paths),
    };
    let ghost cps = canonical_paths@.map_values(|o: Option<String>| opt_seq(o));
    assert(entries_active(r@, opt_str(active_path), opt_seq(canonical_active), cps, bs)) by {
        assert forall|k: int| 0 <= k < r@.len() implies (#[trigger] r@[k]).is_active == entry_active(
            opt_str(active_path),
            opt_seq(canonical_active),
            cps[k],
            bs[k].0,
        ) by {
            assert(cps[k] == opt_seq(canonical_paths@[k]));
        }
    }
    r
}

/// Every entry's `is_active` agrees with `entry_active` for the given
/// canonical forms.
pub open spec fn entries_active(
    r: Seq<WorktreeEntry>,
    active: Option<Seq<char>>,
    canonical_active: Option<Seq<char>>,
    cps: Seq<Option<Seq<char>>>,
    bs: Seq<SpecBlock>,
) -> bool {
    forall|k: int| 0 <= k < r.len() ==> (#[trigger] r[k]).is_active == entry_active(active, canonical_active, cps[k], bs[k].0)
}

/// Branches of the worktrees after the main one, skipping detached ones.
pub open spec fn linked_branches(bs: Seq<SpecBlock>) -> Seq<Seq<char>>
    decreases bs.len(),
{
    if bs.len() <= 1 {
        seq![]
    } else {
        let rest = linked_branches(bs.drop_last());
        match bs.last().1 {
            Some(b) => rest.push(b),
            None => rest,
        }
    }
}

/// Branch names of all worktrees but the main one, in listing order.
pub fn parse_worktree_list(output: &str) -> (r: Vec<String>)
    ensures
        seqs(r@) == linked_branches(blocks_of(output@)),
{
    let blocks = scan_blocks(output);
    let ghost bs = blocks_of(output@);
    let mut out: Vec<String> = Vec::new();
    if blocks.len() == 0 {
        assert(seqs(out@) =~= linked_branches(bs));
        return out;
    }
    let mut i: usize = 1;
    assert(bs.take(1).len() <= 1);
    assert(seqs(out@) =~= linked_branches(bs.take(1)));
    while i < blocks.len()
        invariant
            models(blocks@) == bs,
            bs == blocks_of(output@),
            1 <= i <= blocks@.len(),
            seqs(out@) == linked_branches(bs.take(i as int)),
        decreases blocks@.len() - i,
    {
        assert(bs[i as int] == blocks@[i as int].model());
        assert(bs.take(i + 1).drop_last() =~= bs.take(i as int));
        let ghost before = out@;
        match &blocks[i].branch {
            Some(b) => {
                out.push(b.clone());
                assert(seqs(out@) =~= seqs(before).push(b@));
            },
            None => {},
        }
        i += 1;
    }
    assert(bs.take(i as int) =~= bs);
    out
}

/// Path of the main worktree (empty when there is none) and the path and
/// branch of every other worktree, in order.
pub fn parse_all_worktrees(output: &str) -> (r: (String, Vec<(String, Option<String>)>))
    ensures
        blocks_of(output@).len() == 0 ==> r.0@ == Seq::<char>::empty() && r.1@.len() == 0,
        blocks_of(output@).len() > 0 ==> {
            &&& r.0@ == blocks_of(output@)[0].0
            &&& r.1@.len() == blocks_of(output@).len() - 1
            &&& forall|i: int|
                0 <= i < r.1@.len() ==> {
                    &&& (#[trigger] r.1@[i]).0@ == blocks_of(output@)[i + 1].0
                    &&& opt_seq(r.1@[i].1) == blocks_of(output@)[i + 1].1
                }
        },
{
    let blocks = scan_blocks(output);
    let ghost bs = blocks_of(output@);
    let mut rest: Vec<(String, Option<String>)> = Vec::new();
    if blocks.len() == 0 {
        return (String::new(), rest);
    }
    assert(bs[0] == blocks@[0].model());
    let main = blocks[0].path.clone();
    let mut i: usize = 1;
    while i < blocks.len()
        invariant
            models(blocks@) == bs,
            bs == blocks_of(output@),
            1 <= i <= blocks@.len(),
            rest@.len() == i - 1,
            forall|k: int|
                0 <= k < rest@.len() ==> {
                    &&& (#[trigger] rest@[k]).0@ == bs[k + 1].0
                    &&& opt_seq(rest@[k].1) == bs[k + 1].1
                },
        decreases blocks@.len() - i,
    {
        assert(bs[i as int] == blocks@[i as int].model());
        rest.push((blocks[i].path.clone(), clone_opt(&blocks[i].branch)));
        i += 1;
    }
    (main, rest)
}

/// `i` is the first worktree after the main one on branch `name`.
pub open spec fn first_on_branch(bs: Seq<SpecBlock>, name: Seq<char>, i: int) -> bool {
    &&& 1 <= i < bs.len()
    &&& bs[i].1 == Some(name)
    &&& forall|j: int| 1 <= j < i ==> bs[j].1 != Some(name)
}

/// The first worktree after the main one whose branch is `name`.
pub open spec fn branch_match(bs: Seq<SpecBlock>, name: Seq<char>) -> Option<int> {
    if exists|i: int| first_on_branch(bs, name, i) {
        Some(choose|i: int| first_on_branch(bs, name, i))
    } else {
        None
    }
}

pub proof fn lemma_branch_match(bs: Seq<SpecBlock>, name: Seq<char>, k: int)
    requires
        first_on_branch(bs, name, k),
    ensures
        branch_match(bs, name) == Some(k),
{
    let c = choose|i: int| first_on_branch(bs, name, i);
    assert(first_on_branch(bs, name, c));
    if c < k {
        assert(bs[c].1 != Some(name));
    } else if c > k {
        assert(bs[k].1 != Some(name));
    }
}

/// Path of the first worktree, the main one excepted, checked out on
/// `branch_name`.
pub fn find_worktree_by_branch(output: &str, branch_name: &str) -> (r: Option<String>)
    ensures
        branch_match(blocks_of(output@), branch_name@) is None ==> r is None,
        branch_match(blocks_of(output@), branch_name@) is Some ==> opt_seq(r) == Some(
            blocks_of(output@)[branch_match(blocks_of(output@), branch_name@)->0].0,
        ),
{
    let blocks = scan_blocks(output);
    let ghost bs = blocks_of(output@);
    let target = String::from_str(branch_name);
    let mut i: usize = 1;
    while i < blocks.len()
        invariant
            models(blocks@) == bs,
            bs == blocks_of(output@),
            1 <= i,
            i <= blocks@.len() || blocks@.len() == 0,
            target@ == branch_name@,
            forall|j: int| 1 <= j < i && j < bs.len() ==> bs[j].1 != Some(branch_name@),
        decreases blocks@.len() - i,
    {
        assert(bs[i as int] == blocks@[i as int].model());
        let hit = match &blocks[i].branch {
            Some(b) => {
                let e = *b == target;
                assert(e ==> opt_seq(blocks@[i as int].branch) == Some(branch_name@));
                e
            },
            None => false,
        };
        if hit {
            proof {
                assert(bs[i as int].1 == Some(branch_name@));
                assert(first_on_branch(bs, branch_name@, i as int));
                lemma_branch_match(bs, branch_name@, i as int);
            }
            let p = blocks[i].path.clone();
            assert(p@ == bs[i as int].0);
            assert(branch_match(bs, branch_name@) == Some(i as int));
            let r = Some(p);
            assert(opt_seq(r) == Some(bs[i as int].0));
            return r;
        }
        i += 1;
    }
    proof {
        if exists|k: int| first_on_branch(bs, branch_name@, k) {
            let k = choose|k: int| first_on_branch(bs, branch_name@, k);
            assert(bs[k].1 != Some(branch_name@));
        }
    }
    None
}

/// Whether `path_or_branch` names the main worktree: the marker `@`, the
/// main worktree's path, or its branch.
pub open spec fn names_main(bs: Seq<SpecBlock>, s: Seq<char>) -> bool {
    s == "@"@ || (bs.len() > 0 && (bs[0].0 == s || bs[0].1 == Some(s)))
}

/// Whether `path_or_branch` names the main worktree: see `names_main`.
pub fn is_main_worktree(output: &str, path_or_branch: &str) -> (r: bool)
    ensures
        r == names_main(blocks_of(output@), path_or_branch@),
{
    let s = String::from_str(path_or_branch);
    let at = String::from_str("@");
    if s == at {
        return true;
    }
    let blocks = scan_blocks(output);
    let ghost bs = blocks_of(output@);
    if blocks.len() == 0 {
        return false;
    }
    assert(bs[0] == blocks@[0].model());
    if blocks[0].path == s {
        return true;
    }
    match &blocks[0].branch {
        Some(b) => *b == s,
        None => false,
    }
}


/// `i` is the first worktree, the main one included, on branch `name`.
pub open spec fn first_any_on_branch(bs: Seq<SpecBlock>, name: Seq<char>, i: int) -> bool {
    &&& 0 <= i < bs.len()
    &&& bs[i].1 == Some(name)
    &&& forall|j: int| 0 <= j < i ==> bs[j].1 != Some(name)
}

/// Where `cd` goes for `name`: the main worktree for `@` (an empty path
/// when there is none), else the first worktree on branch `name`.
pub open spec fn goto_target(bs: Seq<SpecBlock>, name: Seq<char>) -> Option<Seq<char>> {
    if name == "@"@ {
        Some(if bs.len() > 0 { bs[0].0 } else { Seq::<char>::empty() })
    } else if exists|i: int| first_any_on_branch(bs, name, i) {
        Some(bs[choose|i: int| first_any_on_branch(bs, name, i)].0)
    } else {
        None
    }
}

/// The worktree path `cd` prints for `name`: see `goto_target`.
pub fn find_goto_path(output: &str, name: &str) -> (r: Option<String>)
    ensures
        opt_seq(r) == goto_target(blocks_of(output@), name@),
{
    let blocks = scan_blocks(output);
    let ghost bs = blocks_of(output@);
    let target = String::from_str(name);
    if target == String::from_str("@") {
        if blocks.len() > 0 {
            assert(bs[0] == blocks@[0].model());
            return Some(blocks[0].path.clone());
        }
        return Some(String::new());
    }
    let mut i: usize = 0;
    while i < blocks.len()
        invariant
            bs == models(blocks@),
            bs == blocks_of(output@),
            target@ == name@,
            name@ != "@"@,
            i <= blocks@.len(),
            forall|j: int| 0 <= j < i ==> bs[j].1 != Some(name@),
        decreases blocks@.len() - i,
    {
        assert(bs[i as int] == blocks@[i as int].model());
        let hit = match &blocks[i].branch {
            Some(b) => {
                let e = *b == target;
                assert(e ==> bs[i as int].1 == Some(name@));
                e
            },
            None => false,
        };
        if hit {
            proof {
                assert(first_any_on_branch(bs, name@, i as int));
                let c = choose|c: int| first_any_on_branch(bs, name@, c);
                if c < i {
                    assert(bs[c].1 != Some(name@));
                } else if c > i {
                    assert(bs[i as int].1 != Some(name@));
                }
            }
            return Some(blocks[i].path.clone());
        }
        i += 1;
    }
    proof {
        if exists|k: int| first_any_on_branch(bs, name@, k) {
            let k = choose|k: int| first_any_on_branch(bs, name@, k);
            assert(bs[k].1 != Some(name@));
        }
    }
    None
}


/// Text of lines, each followed by `\n`.
pub open spec fn text_of_lines(ls: Seq<Seq<char>>) -> Seq<char>
    decreases ls.len(),
{
    if ls.len() == 0 {
        seq![]
    } else {
        ls[0] + seq!['\n'] + text_of_lines(ls.skip(1))
    }
}

/// A block as Git writes it: its `worktree` line, its other lines, and a
/// blank line.
pub open spec fn block_lines(path: Seq<char>, attrs: Seq<Seq<char>>) -> Seq<Seq<char>> {
    seq![worktree_tag() + path] + attrs + seq![Seq::<char>::empty()]
}

pub open spec fn porcelain_lines(bks: Seq<(Seq<char>, Seq<Seq<char>>)>) -> Seq<Seq<char>>
    decreases bks.len(),
{
    if bks.len() == 0 {
        seq![]
    } else {
        porcelain_lines(bks.drop_last()) + block_lines(bks.last().0, bks.last().1)
    }
}

/// Porcelain text of blocks, each ended by a blank line.
pub open spec fn porcelain_text(bks: Seq<(Seq<char>, Seq<Seq<char>>)>) -> Seq<char> {
    text_of_lines(porcelain_lines(bks))
}

pub open spec fn plain_line(l: Seq<char>) -> bool {
    forall|i: int| 0 <= i < l.len() ==> l[i] != '\n' && l[i] != '\r'
}

/// A well-formed block: a path and other lines without line breaks, the
/// other lines neither blank nor `worktree ` lines.
pub open spec fn valid_block(b: (Seq<char>, Seq<Seq<char>>)) -> bool {
    &&& plain_line(b.0)
    &&& forall|j: int|
        0 <= j < b.1.len() ==> plain_line(#[trigger] b.1[j]) && b.1[j].len() > 0 && !has_prefix(b.1[j], worktree_tag())
}

proof fn lemma_lines_cons(l: Seq<char>, rest: Seq<char>)
    requires
        plain_line(l),
    ensures
        lines(l + seq!['\n'] + rest) == seq![l] + lines(rest),
{
    let s = l + seq!['\n'] + rest;
    assert forall|t: int| 0 <= t < l.len() implies s[t] != '\n' by {
        assert(s[t] == l[t]);
    }
    crate::text::lemma_first_of(s, '\n', l.len() as int);
    assert(s.take(l.len() as int) =~= l);
    assert(s.skip(l.len() + 1 as int) =~= rest);
    if l.len() > 0 {
        assert(l.last() != '\r');
    }
    assert(crate::text::strip_cr(l) == l);
}

proof fn lemma_lines_of_text(ls: Seq<Seq<char>>)
    requires
        forall|i: int| 0 <= i < ls.len() ==> plain_line(#[trigger] ls[i]),
    ensures
        lines(text_of_lines(ls)) == ls,
    decreases ls.len(),
{
    if ls.len() > 0 {
        assert forall|i: int| 0 <= i < ls.skip(1).len() implies plain_line(#[trigger] ls.skip(1)[i]) by {
            assert(ls.skip(1)[i] == ls[i + 1]);
        }
        lemma_lines_of_text(ls.skip(1));
        assert(plain_line(ls[0]));
        lemma_lines_cons(ls[0], text_of_lines(ls.skip(1)));
        assert(seq![ls[0]] + ls.skip(1) =~= ls);
    } else {
        assert(lines(Seq::<char>::empty()) == Seq::<Seq<char>>::empty());
    }
}

/// Path of the open block, if any.
pub open spec fn open_path(st: ScanState) -> Seq<char> {
    match st.1 {
        Some(b) => b.0,
        None => Seq::<char>::empty(),
    }
}

/// The scan continued over more lines.
pub open spec fn scan_more(st: ScanState, ys: Seq<Seq<char>>) -> ScanState
    decreases ys.len(),
{
    if ys.len() == 0 {
        st
    } else {
        scan_step(scan_more(st, ys.drop_last()), ys.last())
    }
}

proof fn lemma_scan_concat(xs: Seq<Seq<char>>, ys: Seq<Seq<char>>)
    ensures
        scan_lines(xs + ys) == scan_more(scan_lines(xs), ys),
    decreases ys.len(),
{
    if ys.len() == 0 {
        assert(xs + ys =~= xs);
    } else {
        lemma_scan_concat(xs, ys.drop_last());
        assert((xs + ys).drop_last() =~= xs + ys.drop_last());
        assert((xs + ys).last() == ys.last());
    }
}

proof fn lemma_scan_attrs(done: Seq<SpecBlock>, path: Seq<char>, attrs: Seq<Seq<char>>)
    requires
        forall|j: int| 0 <= j < attrs.len() ==> (#[trigger] attrs[j]).len() > 0 && !has_prefix(attrs[j], worktree_tag()),
    ensures
        scan_more((done, None), seq![worktree_tag() + path] + attrs).0 == done,
        scan_more((done, None), seq![worktree_tag() + path] + attrs).1 is Some,
        open_path(scan_more((done, None), seq![worktree_tag() + path] + attrs)) == path,
    decreases attrs.len(),
{
    let first = worktree_tag() + path;
    if attrs.len() == 0 {
        assert(seq![first] + attrs =~= seq![first]);
        assert(seq![first].drop_last() =~= Seq::<Seq<char>>::empty());
        assert(seq![first].last() == first);
        assert(scan_more((done, None), seq![first].drop_last()) == (done, None::<SpecBlock>));
        assert(close_block((done, None::<SpecBlock>)) == done);
        assert(has_prefix(first, worktree_tag())) by {
            assert(first.take(worktree_tag().len() as int) =~= worktree_tag());
        }
        assert(first.skip(worktree_tag().len() as int) =~= path);
    } else {
        let prev = attrs.drop_last();
        assert forall|j: int| 0 <= j < prev.len() implies (#[trigger] prev[j]).len() > 0 && !has_prefix(prev[j], worktree_tag()) by {
            assert(prev[j] == attrs[j]);
        }
        lemma_scan_attrs(done, path, prev);
        assert((seq![first] + attrs).drop_last() =~= seq![first] + prev);
        assert((seq![first] + attrs).last() == attrs[attrs.len() - 1]);
    }
}

proof fn lemma_scan_block(done: Seq<SpecBlock>, path: Seq<char>, attrs: Seq<Seq<char>>)
    requires
        forall|j: int| 0 <= j < attrs.len() ==> (#[trigger] attrs[j]).len() > 0 && !has_prefix(attrs[j], worktree_tag()),
    ensures
        scan_more((done, None), block_lines(path, attrs)).0.len() == done.len() + 1,
        scan_more((done, None), block_lines(path, attrs)).0.take(done.len() as int) == done,
        scan_more((done, None), block_lines(path, attrs)).0.last().0 == path,
        scan_more((done, None), block_lines(path, attrs)).1 is None,
{
    reveal_strlit("worktree ");
    reveal_strlit("HEAD ");
    reveal_strlit("branch ");
    lemma_scan_attrs(done, path, attrs);
    let body = seq![worktree_tag() + path] + attrs;
    let all = block_lines(path, attrs);
    assert(all.drop_last() =~= body);
    assert(all.last() == Seq::<char>::empty());
    let st = scan_more((done, None), body);
    assert(!has_prefix(Seq::<char>::empty(), worktree_tag()));
    assert(!has_prefix(Seq::<char>::empty(), head_tag()));
    assert(!has_prefix(Seq::<char>::empty(), branch_tag()));
    assert(scan_more((done, None), all) == (close_block(st), None::<SpecBlock>));
    assert(close_block(st) == done.push(st.1->0));
    assert(done.push(st.1->0).take(done.len() as int) =~= done);
}

/// For porcelain text made of blocks each ended by a blank line, the
/// scanner finds exactly those blocks, in order: block `i` has the path of
/// the `i`-th `worktree` line, so block 0 is the first one listed.
pub proof fn lemma_blocks_of_porcelain(bks: Seq<(Seq<char>, Seq<Seq<char>>)>)
    requires
        forall|i: int| 0 <= i < bks.len() ==> valid_block(#[trigger] bks[i]),
    ensures
        blocks_of(porcelain_text(bks)).len() == bks.len(),
        forall|i: int| 0 <= i < bks.len() ==> #[trigger] blocks_of(porcelain_text(bks))[i].0 == bks[i].0,
{
    lemma_porcelain_lines_plain(bks);
    lemma_lines_of_text(porcelain_lines(bks));
    lemma_scan_blocks(bks);
}

/// The lines of a block that the input ends: its `worktree` line and its
/// other lines, without the closing blank line.
pub open spec fn open_block_lines(b: (Seq<char>, Seq<Seq<char>>)) -> Seq<Seq<char>> {
    seq![worktree_tag() + b.0] + b.1
}

/// Porcelain text of blocks each ended by a blank line, then a last block
/// ended by the end of the input, its last line followed by `\n` or not.
pub open spec fn porcelain_text_open(
    bks: Seq<(Seq<char>, Seq<Seq<char>>)>,
    last: (Seq<char>, Seq<Seq<char>>),
    final_newline: bool,
) -> Seq<char> {
    let l = open_block_lines(last);
    porcelain_text(bks) + if final_newline {
        text_of_lines(l)
    } else {
        text_of_lines(l.drop_last()) + l.last()
    }
}

proof fn lemma_lines_after_text(ls: Seq<Seq<char>>, t: Seq<char>)
    requires
        forall|i: int| 0 <= i < ls.len() ==> plain_line(#[trigger] ls[i]),
    ensures
        lines(text_of_lines(ls) + t) == ls + lines(t),
    decreases ls.len(),
{
    if ls.len() == 0 {
        assert(text_of_lines(ls) + t =~= t);
        assert(ls + lines(t) =~= lines(t));
    } else {
        let rest = ls.skip(1);
        assert forall|i: int| 0 <= i < rest.len() implies plain_line(#[trigger] rest[i]) by {
            assert(rest[i] == ls[i + 1]);
        }
        lemma_lines_after_text(rest, t);
        assert(plain_line(ls[0]));
        assert(text_of_lines(ls) + t =~= ls[0] + seq!['\n'] + (text_of_lines(rest) + t));
        lemma_lines_cons(ls[0], text_of_lines(rest) + t);
        assert(seq![ls[0]] + (rest + lines(t)) =~= ls + lines(t));
    }
}

proof fn lemma_lines_single(l: Seq<char>)
    requires
        plain_line(l),
        l.len() > 0,
    ensures
        lines(l) == seq![l],
{
    crate::text::lemma_first_of(l, '\n', l.len() as int);
}

/// When the input ends inside a last block (with or without a final
/// newline), the scanner finds the blank-line-ended blocks and then that
/// last one, in order: block `i` has the path of the `i`-th `worktree` line.
pub proof fn lemma_blocks_of_porcelain_open(
    bks: Seq<(Seq<char>, Seq<Seq<char>>)>,
    last: (Seq<char>, Seq<Seq<char>>),
    final_newline: bool,
)
    requires
        forall|i: int| 0 <= i < bks.len() ==> valid_block(#[trigger] bks[i]),
        valid_block(last),
    ensures
        blocks_of(porcelain_text_open(bks, last, final_newline)).len() == bks.len() + 1,
        forall|i: int|
            0 <= i < bks.len() ==> #[trigger] blocks_of(porcelain_text_open(bks, last, final_newline))[i].0 == bks[i].0,
        blocks_of(porcelain_text_open(bks, last, final_newline))[bks.len() as int].0 == last.0,
{
    reveal_strlit("worktree ");
    let pl = porcelain_lines(bks);
    let l = open_block_lines(last);
    lemma_porcelain_lines_plain(bks);
    lemma_porcelain_lines_plain(seq![last]);
    assert(seq![last].drop_last() =~= Seq::<(Seq<char>, Seq<Seq<char>>)>::empty());
    assert(seq![last].last() == last);
    let bl = block_lines(last.0, last.1);
    assert(porcelain_lines(seq![last].drop_last()) =~= Seq::<Seq<char>>::empty());
    assert(porcelain_lines(seq![last]) == porcelain_lines(seq![last].drop_last()) + bl);
    assert(porcelain_lines(seq![last]) =~= bl);
    assert forall|i: int| 0 <= i < l.len() implies plain_line(#[trigger] l[i]) by {
        assert(l[i] == bl[i]);
        assert(plain_line(porcelain_lines(seq![last])[i]));
    }
    assert(l.len() > 0);
    assert(l[0].len() > 0);
    assert(l.last().len() > 0) by {
        if l.len() > 1 {
            assert(l.last() == last.1[last.1.len() - 1]);
        }
    }
    let t = if final_newline {
        text_of_lines(l)
    } else {
        text_of_lines(l.drop_last()) + l.last()
    };
    if final_newline {
        lemma_lines_of_text(l);
    } else {
        assert forall|i: int| 0 <= i < l.drop_last().len() implies plain_line(#[trigger] l.drop_last()[i]) by {
            assert(l.drop_last()[i] == l[i]);
        }
        lemma_lines_after_text(l.drop_last(), l.last());
        lemma_lines_single(l.last());
        assert(l.drop_last() + seq![l.last()] =~= l);
    }
    assert(lines(t) == l);
    lemma_lines_after_text(pl, t);
    assert(porcelain_text_open(bks, last, final_newline) == text_of_lines(pl) + t);
    lemma_scan_blocks(bks);
    let st = scan_lines(pl);
    lemma_scan_concat(pl, l);
    assert forall|j: int| 0 <= j < last.1.len() implies (#[trigger] last.1[j]).len() > 0 && !has_prefix(last.1[j], worktree_tag()) by {
        assert(valid_block(last));
    }
    assert(st == (st.0, None::<SpecBlock>));
    lemma_scan_attrs(st.0, last.0, last.1);
    let nx = scan_lines(pl + l);
    assert(nx.0 == st.0);
    assert(blocks_of(porcelain_text_open(bks, last, final_newline)) == close_block(nx));
    assert(close_block(nx) == st.0.push(nx.1->0));
    assert forall|i: int| 0 <= i < bks.len() implies #[trigger] close_block(nx)[i].0 == bks[i].0 by {
        assert(close_block(nx)[i] == st.0[i]);
    }
}

proof fn lemma_porcelain_lines_plain(bks: Seq<(Seq<char>, Seq<Seq<char>>)>)
    requires
        forall|i: int| 0 <= i < bks.len() ==> valid_block(#[trigger] bks[i]),
    ensures
        forall|i: int| 0 <= i < porcelain_lines(bks).len() ==> plain_line(#[trigger] porcelain_lines(bks)[i]),
    decreases bks.len(),
{
    reveal_strlit("worktree ");
    if bks.len() > 0 {
        let prev = bks.drop_last();
        assert forall|i: int| 0 <= i < prev.len() implies valid_block(#[trigger] prev[i]) by {
            assert(prev[i] == bks[i]);
        }
        lemma_porcelain_lines_plain(prev);
        let b = bks.last();
        assert(valid_block(bks[bks.len() - 1]));
        let bl = block_lines(b.0, b.1);
        let pl = porcelain_lines(prev);
        assert forall|i: int| 0 <= i < porcelain_lines(bks).len() implies plain_line(#[trigger] porcelain_lines(bks)[i]) by {
            if i < pl.len() {
                assert(porcelain_lines(bks)[i] == pl[i]);
            } else {
                let k = i - pl.len();
                assert(porcelain_lines(bks)[i] == bl[k]);
                if k == 0 {
                    let w = worktree_tag() + b.0;
                    assert forall|t: int| 0 <= t < w.len() implies w[t] != '\n' && w[t] != '\r' by {
                        if t >= worktree_tag().len() {
                            assert(w[t] == b.0[t - worktree_tag().len()]);
                        }
                    }
                } else if k <= b.1.len() {
                    assert(bl[k] == b.1[k - 1]);
                } else {
                    assert(bl[k].len() == 0);
                }
            }
        }
    }
}

proof fn lemma_scan_blocks(bks: Seq<(Seq<char>, Seq<Seq<char>>)>)
    requires
        forall|i: int| 0 <= i < bks.len() ==> valid_block(#[trigger] bks[i]),
    ensures
        scan_lines(porcelain_lines(bks)).1 is None,
        scan_lines(porcelain_lines(bks)).0.len() == bks.len(),
        forall|i: int| 0 <= i < bks.len() ==> #[trigger] scan_lines(porcelain_lines(bks)).0[i].0 == bks[i].0,
    decreases bks.len(),
{
    if bks.len() == 0 {
        assert(porcelain_lines(bks) == Seq::<Seq<char>>::empty());
    } else {
        let prev = bks.drop_last();
        assert forall|i: int| 0 <= i < prev.len() implies valid_block(#[trigger] prev[i]) by {
            assert(prev[i] == bks[i]);
        }
        lemma_scan_blocks(prev);
        let b = bks.last();
        assert(valid_block(bks[bks.len() - 1]));
        let st = scan_lines(porcelain_lines(prev));
        lemma_scan_concat(porcelain_lines(prev), block_lines(b.0, b.1));
        assert(st == (st.0, None::<SpecBlock>));
        lemma_scan_block(st.0, b.0, b.1);
        let nx = scan_lines(porcelain_lines(bks));
        assert(nx == scan_more((st.0, None), block_lines(b.0, b.1)));
        assert forall|i: int| 0 <= i < bks.len() implies #[trigger] nx.0[i].0 == bks[i].0 by {
            if i < prev.len() {
                assert(nx.0.take(st.0.len() as int)[i] == st.0[i]);
                assert(prev[i] == bks[i]);
            }
        }
    }
}

} // verus!
