//! Lexical path arithmetic on `/`-separated path strings.
use vstd::prelude::*;

use crate::text::{seqs, has_prefix, span_has_prefix, opt_seq, chars_of, span_equals, span_matches, spans_match, split, split_spans, substring};

verus! {

pub open spec fn is_absolute(p: Seq<char>) -> bool {
    p.len() > 0 && p[0] == '/'
}

/// `"/"` for an absolute path, nothing for a relative one.
pub open spec fn root_of(p: Seq<char>) -> Seq<char> {
    if is_absolute(p) {
        seq!['/']
    } else {
        seq![]
    }
}

/// A segment that names nothing: empty (a doubled or trailing `/`) or `.`.
pub open spec fn is_filler(s: Seq<char>) -> bool {
    s.len() == 0 || s == "."@
}

/// The stack of names after one more segment: fillers are skipped, `..`
/// drops the last name (nothing when there is none), a name is pushed.
pub open spec fn norm_push(st: Seq<Seq<char>>, s: Seq<char>) -> Seq<Seq<char>> {
    if is_filler(s) {
        st
    } else if s == ".."@ {
        if st.len() > 0 {
            st.drop_last()
        } else {
            st
        }
    } else {
        st.push(s)
    }
}

pub open spec fn norm_stack(segs: Seq<Seq<char>>) -> Seq<Seq<char>>
    decreases segs.len(),
{
    if segs.len() == 0 {
        seq![]
    } else {
        norm_push(norm_stack(segs.drop_last()), segs.last())
    }
}

/// Names joined with `/`.
pub open spec fn join(segs: Seq<Seq<char>>) -> Seq<char>
    decreases segs.len(),
{
    if segs.len() == 0 {
        seq![]
    } else if segs.len() == 1 {
        segs[0]
    } else {
        join(segs.drop_last()) + seq!['/'] + segs.last()
    }
}

/// The names of a path once `.` and `..` are resolved lexically.
pub open spec fn names(p: Seq<char>) -> Seq<Seq<char>> {
    norm_stack(split(p, '/'))
}

/// A path with `.` and `..` resolved lexically, without touching the disk.
pub open spec fn normalize(p: Seq<char>) -> Seq<char> {
    root_of(p) + join(names(p))
}

/// The path of the names in `spans` of `cs`.
pub open spec fn span_seqs(cs: Seq<char>, spans: Seq<(usize, usize)>) -> Seq<Seq<char>> {
    spans.map_values(|sp: (usize, usize)| cs.subrange(sp.0 as int, sp.1 as int))
}

/// Spans of the names left when `.` and `..` are resolved.
fn name_spans(cs: &Vec<char>) -> (r: Vec<(usize, usize)>)
    ensures
        span_seqs(cs@, r@) == names(cs@),
        forall|i: int| 0 <= i < r@.len() ==> (#[trigger] r@[i]).0 <= r@[i].1 <= cs@.len(),
{
    let segs = split_spans(cs, '/');
    let ghost ss = split(cs@, '/');
    let dot = chars_of(".");
    let dotdot = chars_of("..");
    let mut st: Vec<(usize, usize)> = Vec::new();
    let mut i: usize = 0;
    assert(ss.take(0) =~= seq![]);
    assert(span_seqs(cs@, st@) =~= seq![]);
    while i < segs.len()
        invariant
            segs@.len() == ss.len(),
            ss == split(cs@, '/'),
            spans_match(cs@, segs@, ss, cs@.len() as int),
            dot@ == "."@,
            dotdot@ == ".."@,
            i <= segs@.len(),
            span_seqs(cs@, st@) == norm_stack(ss.take(i as int)),
            forall|k: int| 0 <= k < st@.len() ==> (#[trigger] st@[k]).0 <= st@[k].1 <= cs@.len(),
        decreases segs@.len() - i,
    {
        let (a, b) = segs[i];
        proof {
            assert(span_matches(cs@, segs@[i as int], ss[i as int], cs@.len() as int));
            assert(ss.take(i + 1).drop_last() =~= ss.take(i as int));
            assert(ss.take(i + 1).last() == ss[i as int]);
        }
        let ghost before = span_seqs(cs@, st@);
        if a == b || span_equals(cs, a, b, &dot) {
        } else if span_equals(cs, a, b, &dotdot) {
            if st.len() > 0 {
                st.pop();
                assert(span_seqs(cs@, st@) =~= before.drop_last());
            }
        } else {
            st.push((a, b));
            assert(span_seqs(cs@, st@) =~= before.push(cs@.subrange(a as int, b as int)));
        }
        i += 1;
    }
    assert(ss.take(i as int) =~= ss);
    st
}

/// Resolves `.` and `..` in `path` lexically: no symlink is followed and the
/// path need not exist. A `..` with nothing left to drop is ignored.
pub fn normalize_path_lexically(path: &str) -> (r: String)
    ensures
        r@ == normalize(path@),
{
    let cs = chars_of(path);
    let st = name_spans(&cs);
    let ghost ns = span_seqs(cs@, st@);
    let mut out = String::new();
    if cs.len() > 0 && cs[0] == '/' {
        out.append("/");
    }
    proof {
        reveal_strlit("/");
        assert(out@ =~= root_of(path@) + join(ns.take(0)));
    }
    let mut k: usize = 0;
    while k < st.len()
        invariant
            cs@ == path@,
            ns == span_seqs(cs@, st@),
            forall|i: int| 0 <= i < st@.len() ==> (#[trigger] st@[i]).0 <= st@[i].1 <= cs@.len(),
            k <= st@.len(),
            out@ == root_of(path@) + join(ns.take(k as int)),
        decreases st@.len() - k,
    {
        let (a, b) = st[k];
        let piece = substring(path, a, b);
        proof {
            reveal_strlit("/");
            assert(ns.take(k + 1).drop_last() =~= ns.take(k as int));
            assert(ns[k as int] == piece@);
        }
        if k > 0 {
            out.append("/");
        }
        out.append(piece.as_str());
        proof {
            if k == 0 {
                assert(out@ =~= root_of(path@) + join(ns.take(k + 1)));
            } else {
                assert(out@ =~= root_of(path@) + join(ns.take(k + 1)));
            }
        }
        k += 1;
    }
    assert(ns.take(k as int) =~= ns);
    out
}


/// The segments of `segs` that name something, in order.
pub open spec fn kept(segs: Seq<Seq<char>>) -> Seq<Seq<char>>
    decreases segs.len(),
{
    if segs.len() == 0 {
        seq![]
    } else if is_filler(segs.last()) {
        kept(segs.drop_last())
    } else {
        kept(segs.drop_last()).push(segs.last())
    }
}

/// What stands before the names: the root `/`, or a leading `.` of a
/// relative path.
pub open spec fn lead(p: Seq<char>) -> Seq<Seq<char>> {
    if is_absolute(p) {
        seq![seq!['/']]
    } else if split(p, '/')[0] == "."@ {
        seq!["."@]
    } else {
        seq![]
    }
}

/// The components of a path, as `Path::components` yields them on Unix.
pub open spec fn components(p: Seq<char>) -> Seq<Seq<char>> {
    lead(p) + kept(split(p, '/'))
}

/// The path that pushing `cs` one by one onto an empty path gives.
pub open spec fn from_components(cs: Seq<Seq<char>>) -> Seq<char> {
    if cs.len() > 0 && cs[0] == seq!['/'] {
        seq!['/'] + join(cs.skip(1))
    } else {
        join(cs)
    }
}

proof fn lemma_split_nonempty(s: Seq<char>, c: char)
    ensures
        split(s, c).len() > 0,
        split(s, c)[0] == s.take(first_of_len(s, c)),
{
    let k = crate::text::first_of(s, c);
    crate::text::lemma_first_of_bound(s, c);
    if k < s.len() {
        assert(split(s, c) == seq![s.take(k as int)] + split(s.skip(k + 1 as int), c));
    } else {
        assert(split(s, c) == seq![s]);
        assert(s.take(s.len() as int) =~= s);
    }
}

pub open spec fn first_of_len(s: Seq<char>, c: char) -> int {
    crate::text::first_of(s, c) as int
}

/// The components of `p`.
pub fn components_of(p: &str) -> (r: Vec<String>)
    ensures
        seqs(r@) == components(p@),
{
    let cs = chars_of(p);
    let segs = split_spans(&cs, '/');
    let ghost ss = split(cs@, '/');
    let dot = chars_of(".");
    let mut out: Vec<String> = Vec::new();
    proof {
        lemma_split_nonempty(cs@, '/');
        reveal_strlit("/");
        reveal_strlit(".");
        assert(span_matches(cs@, segs@[0], ss[0], cs@.len() as int));
    }
    if cs.len() > 0 && cs[0] == '/' {
        out.push(String::from_str("/"));
        assert("/"@ =~= seq!['/']);
        assert(seqs(out@) =~= lead(p@));
    } else {
        let (a, b) = segs[0];
        if span_equals(&cs, a, b, &dot) {
            out.push(String::from_str("."));
            assert(seqs(out@) =~= lead(p@));
        } else {
            assert(seqs(out@) =~= lead(p@));
        }
    }
    let ghost base = seqs(out@);
    let mut i: usize = 0;
    assert(ss.take(0) =~= seq![]);
    assert(seqs(out@) =~= base + kept(ss.take(0)));
    while i < segs.len()
        invariant
            cs@ == p@,
            segs@.len() == ss.len(),
            ss == split(cs@, '/'),
            spans_match(cs@, segs@, ss, cs@.len() as int),
            dot@ == "."@,
            i <= segs@.len(),
            base == lead(p@),
            seqs(out@) == base + kept(ss.take(i as int)),
        decreases segs@.len() - i,
    {
        let (a, b) = segs[i];
        proof {
            assert(span_matches(cs@, segs@[i as int], ss[i as int], cs@.len() as int));
            assert(ss.take(i + 1).drop_last() =~= ss.take(i as int));
            assert(ss.take(i + 1).last() == ss[i as int]);
        }
        if a != b && !span_equals(&cs, a, b, &dot) {
            let piece = substring(p, a, b);
            let ghost before = seqs(out@);
            out.push(piece);
            assert(seqs(out@) =~= before.push(piece@));
        }
        i += 1;
    }
    assert(ss.take(i as int) =~= ss);
    out
}

/// The path made of `cs[..n]`.
fn path_from_components(cs: &Vec<String>, n: usize) -> (r: String)
    requires
        n <= cs@.len(),
    ensures
        r@ == from_components(seqs(cs@).take(n as int)),
{
    let ghost vs = seqs(cs@).take(n as int);
    let mut out = String::new();
    let mut k: usize = 0;
    proof {
        reveal_strlit("/");
    }
    let rooted = n > 0 && cs[0].as_str().unicode_len() == 1 && cs[0].as_str().get_char(0) == '/';
    assert(rooted == (vs.len() > 0 && vs[0] == seq!['/'])) by {
        if vs.len() > 0 && vs[0].len() == 1 {
            assert(vs[0] == cs@[0]@);
            if cs@[0]@[0] == '/' {
                assert(vs[0] =~= seq!['/']);
            }
        }
    }
    let ghost rest = if rooted { vs.skip(1) } else { vs };
    if rooted {
        out.append("/");
        k = 1;
    }
    assert(out@ =~= (if rooted { seq!['/'] } else { seq![] }) + join(rest.take(0)));
    let ghost off: int = if rooted { 1 } else { 0 };
    while k < n
        invariant
            n <= cs@.len(),
            vs == seqs(cs@).take(n as int),
            off == (if rooted { 1int } else { 0int }),
            rest == (if rooted { vs.skip(1) } else { vs }),
            off <= k <= n,
            out@ == (if rooted { seq!['/'] } else { seq![] }) + join(rest.take(k - off)),
        decreases n - k,
    {
        proof {
            reveal_strlit("/");
            assert(rest.take(k - off + 1).drop_last() =~= rest.take(k - off));
            assert(rest[k - off] == cs@[k as int]@);
        }
        let first_name: usize = if rooted { 1 } else { 0 };
        if k > first_name {
            out.append("/");
        }
        out.append(cs[k].as_str());
        assert(out@ =~= (if rooted { seq!['/'] } else { seq![] }) + join(rest.take(k - off + 1)));
        k += 1;
    }
    assert(rest.take(n - off) =~= rest);
    out
}

/// `Path::parent`: the path without its last component; none for a path
/// that is empty or only a root.
pub open spec fn parent(p: Seq<char>) -> Option<Seq<char>> {
    let c = components(p);
    if c.len() == 0 || (c.len() == 1 && c[0] == seq!['/']) {
        None
    } else {
        Some(from_components(c.drop_last()))
    }
}

/// Number of leading components two component lists share.
pub open spec fn shared_len(a: Seq<Seq<char>>, b: Seq<Seq<char>>) -> nat
    decreases a.len(),
{
    if a.len() == 0 || b.len() == 0 || a[0] != b[0] {
        0
    } else {
        1 + shared_len(a.skip(1), b.skip(1))
    }
}

/// Components that `first` shares with every path of `others`.
pub open spec fn common_depth(first: Seq<Seq<char>>, others: Seq<Seq<char>>) -> nat
    decreases others.len(),
{
    if others.len() == 0 {
        first.len()
    } else {
        let d = common_depth(first, others.drop_last());
        let e = shared_len(first, components(others.last()));
        if e < d {
            e
        } else {
            d
        }
    }
}

/// The directory that holds all of `paths`: the parent of a lone path, else
/// the longest component prefix they share; none when there is no path or
/// no shared component.
pub open spec fn worktree_root(paths: Seq<Seq<char>>) -> Option<Seq<char>> {
    if paths.len() == 0 {
        None
    } else if paths.len() == 1 {
        parent(paths[0])
    } else {
        let first = components(paths[0]);
        let d = common_depth(first, paths.skip(1));
        if d == 0 {
            None
        } else {
            Some(from_components(first.take(d as int)))
        }
    }
}

/// The root of a single worktree path is its parent directory.
pub proof fn lemma_single_root_is_parent(p: Seq<char>)
    ensures
        worktree_root(seq![p]) == parent(p),
{
    assert(seq![p][0] == p);
}

proof fn lemma_shared_len(a: Seq<Seq<char>>, b: Seq<Seq<char>>, j: int)
    requires
        0 <= j <= a.len(),
        j <= b.len(),
        forall|t: int| 0 <= t < j ==> a[t] == b[t],
        j == a.len() || j == b.len() || a[j] != b[j],
    ensures
        shared_len(a, b) == j,
    decreases j,
{
    if j > 0 {
        lemma_shared_len(a.skip(1), b.skip(1), j - 1);
    }
}

fn count_shared(a: &Vec<String>, b: &Vec<String>) -> (r: usize)
    ensures
        r == shared_len(seqs(a@), seqs(b@)),
        r <= a@.len(),
{
    let mut j: usize = 0;
    while j < a.len() && j < b.len() && a[j] == b[j]
        invariant
            j <= a@.len(),
            j <= b@.len(),
            forall|t: int| 0 <= t < j ==> seqs(a@)[t] == seqs(b@)[t],
        decreases a@.len() - j,
    {
        j += 1;
    }
    proof {
        lemma_shared_len(seqs(a@), seqs(b@), j as int);
    }
    j
}

/// `Path` equality: the two paths have the same components.
pub fn same_path(a: &str, b: &str) -> (r: bool)
    ensures
        r == (components(a@) == components(b@)),
{
    let ca = components_of(a);
    let cb = components_of(b);
    let e = count_shared(&ca, &cb);
    proof {
        lemma_shared_prefix(seqs(ca@), seqs(cb@));
        if seqs(ca@) == seqs(cb@) {
            assert(seqs(ca@).take(seqs(cb@).len() as int) =~= seqs(cb@));
        }
        if e == cb@.len() && ca@.len() == cb@.len() {
            assert(seqs(ca@) =~= seqs(ca@).take(seqs(cb@).len() as int));
        }
    }
    e == cb.len() && ca.len() == cb.len()
}

/// Common parent directory of the worktree paths: see `worktree_root`.
pub fn calculate_worktree_root_from_paths(worktree_paths: &Vec<String>) -> (r: Option<String>)
    ensures
        opt_seq(r) == worktree_root(seqs(worktree_paths@)),
{
    let ghost ps = seqs(worktree_paths@);
    if worktree_paths.len() == 0 {
        return None;
    }
    let first = components_of(worktree_paths[0].as_str());
    assert(ps[0] == worktree_paths@[0]@);
    if worktree_paths.len() == 1 {
        return parent_of(worktree_paths[0].as_str());
    }
    let mut depth: usize = first.len();
    let mut i: usize = 1;
    assert(ps.skip(1).take(0) =~= seq![]);
    while i < worktree_paths.len()
        invariant
            ps == seqs(worktree_paths@),
            ps.len() >= 2,
            1 <= i <= ps.len(),
            seqs(first@) == components(ps[0]),
            depth == common_depth(seqs(first@), ps.skip(1).take(i - 1)),
            depth <= first@.len(),
        decreases ps.len() - i,
    {
        let other = components_of(worktree_paths[i].as_str());
        let e = count_shared(&first, &other);
        proof {
            let t = ps.skip(1).take(i as int);
            assert(t.drop_last() =~= ps.skip(1).take(i - 1));
            assert(t.last() == worktree_paths@[i as int]@);
        }
        if e < depth {
            depth = e;
        }
        i += 1;
    }
    assert(ps.skip(1).take(i - 1) =~= ps.skip(1));
    if depth == 0 {
        return None;
    }
    Some(path_from_components(&first, depth))
}


/// Whether `c` is the root component.
fn is_root_component(c: &String) -> (r: bool)
    ensures
        r == (c@ == seq!['/']),
{
    let r = c.as_str().unicode_len() == 1 && c.as_str().get_char(0) == '/';
    proof {
        if c@.len() == 1 && c@[0] == '/' {
            assert(c@ =~= seq!['/']);
        }
    }
    r
}

/// `Path::parent` of `p`.
pub fn parent_of(p: &str) -> (r: Option<String>)
    ensures
        opt_seq(r) == parent(p@),
{
    let cs = components_of(p);
    let n = cs.len();
    if n == 0 {
        return None;
    }
    if n == 1 && is_root_component(&cs[0]) {
        return None;
    }
    proof {
        assert(seqs(cs@)[0] == cs@[0]@);
        assert(seqs(cs@).take(n - 1) =~= seqs(cs@).drop_last());
    }
    Some(path_from_components(&cs, n - 1))
}

/// Names of `cs` from `start` on, joined with `/`.
fn join_from(cs: &Vec<String>, start: usize) -> (r: String)
    requires
        start <= cs@.len(),
    ensures
        r@ == join(seqs(cs@).skip(start as int)),
{
    let ghost rest = seqs(cs@).skip(start as int);
    let mut out = String::new();
    let mut k: usize = start;
    assert(rest.take(0) =~= seq![]);
    while k < cs.len()
        invariant
            start <= k <= cs@.len(),
            rest == seqs(cs@).skip(start as int),
            out@ == join(rest.take(k - start)),
        decreases cs@.len() - k,
    {
        proof {
            reveal_strlit("/");
            assert(rest.take(k - start + 1).drop_last() =~= rest.take(k - start));
            assert(rest[k - start] == cs@[k as int]@);
        }
        if k > start {
            out.append("/");
        }
        out.append(cs[k].as_str());
        assert(out@ =~= join(rest.take(k - start + 1)));
        k += 1;
    }
    assert(rest.take(k - start) =~= rest);
    out
}

/// `Path::strip_prefix` followed by display: the components of `w` after
/// those of `root`, joined with `/`; none when `root` is not a component
/// prefix of `w`.
pub open spec fn relative_to(w: Seq<char>, root: Seq<char>) -> Option<Seq<char>> {
    let cw = components(w);
    let cr = components(root);
    if cr.len() <= cw.len() && cw.take(cr.len() as int) == cr {
        Some(join(cw.skip(cr.len() as int)))
    } else {
        None
    }
}

proof fn lemma_shared_prefix(a: Seq<Seq<char>>, b: Seq<Seq<char>>)
    ensures
        shared_len(a, b) <= a.len(),
        shared_len(a, b) <= b.len(),
        forall|t: int| 0 <= t < shared_len(a, b) ==> a[t] == b[t],
        (b.len() <= a.len() && a.take(b.len() as int) == b) <==> shared_len(a, b) == b.len(),
    decreases a.len(),
{
    if a.len() == 0 || b.len() == 0 || a[0] != b[0] {
        if b.len() <= a.len() && a.take(b.len() as int) == b && b.len() > 0 {
            assert(a.take(b.len() as int)[0] == b[0]);
        }
        if b.len() == 0 {
            assert(a.take(0) =~= b);
        }
    } else {
        lemma_shared_prefix(a.skip(1), b.skip(1));
        assert forall|t: int| 0 <= t < shared_len(a, b) implies a[t] == b[t] by {
            if t > 0 {
                assert(a.skip(1)[t - 1] == b.skip(1)[t - 1]);
            }
        }
        if b.len() <= a.len() && a.take(b.len() as int) == b {
            assert(a.skip(1).take(b.len() - 1) =~= b.skip(1)) by {
                assert forall|t: int| 0 <= t < b.len() - 1 implies a.skip(1).take(b.len() - 1)[t] == b.skip(1)[t] by {
                    assert(a.take(b.len() as int)[t + 1] == b[t + 1]);
                }
            }
        }
        if shared_len(a, b) == b.len() {
            assert(a.take(b.len() as int) =~= b);
        }
    }
}

/// The path of `worktree_path` below `worktree_root`: see `relative_to`.
pub fn calculate_relative_path(worktree_path: &str, worktree_root: &str) -> (r: Option<String>)
    ensures
        opt_seq(r) == relative_to(worktree_path@, worktree_root@),
{
    let cw = components_of(worktree_path);
    let cr = components_of(worktree_root);
    let e = count_shared(&cw, &cr);
    proof {
        lemma_shared_prefix(seqs(cw@), seqs(cr@));
    }
    if e != cr.len() {
        return None;
    }
    Some(join_from(&cw, e))
}

/// Index of the first occurrence of `pat` in `s`, or `s.len()`.
pub open spec fn find_seq(s: Seq<char>, pat: Seq<char>) -> nat
    decreases s.len(),
{
    if has_prefix(s, pat) || s.len() == 0 {
        0
    } else {
        1 + find_seq(s.skip(1), pat)
    }
}

proof fn lemma_find_seq(s: Seq<char>, pat: Seq<char>, j: int)
    requires
        0 <= j <= s.len(),
        forall|t: int| 0 <= t < j ==> !has_prefix(#[trigger] s.skip(t), pat),
        j == s.len() || has_prefix(s.skip(j), pat),
    ensures
        find_seq(s, pat) == j,
    decreases j,
{
    if j > 0 {
        assert(s.skip(0) =~= s);
        assert forall|t: int| 0 <= t < j - 1 implies !has_prefix(#[trigger] s.skip(1).skip(t), pat) by {
            assert(s.skip(1).skip(t) =~= s.skip(t + 1));
        }
        assert(s.skip(1).skip(j - 1) =~= s.skip(j));
        lemma_find_seq(s.skip(1), pat, j - 1);
    } else {
        assert(s.skip(0) =~= s);
    }
}

/// A component that names a directory: not the root, `.` or `..`.
pub open spec fn is_normal(c: Seq<char>) -> bool {
    c != seq!['/'] && c != "."@ && c != ".."@
}

pub open spec fn count_normal(cs: Seq<Seq<char>>) -> nat
    decreases cs.len(),
{
    if cs.len() == 0 {
        0
    } else {
        count_normal(cs.drop_last()) + if is_normal(cs.last()) {
            1nat
        } else {
            0nat
        }
    }
}

pub open spec fn branch_placeholder() -> Seq<char> {
    "{branch}"@
}

/// Number of directory names in a template before its `{branch}` placeholder.
pub open spec fn branch_depth(template: Seq<char>) -> nat {
    count_normal(components(template.take(find_seq(template, branch_placeholder()) as int)))
}

/// Levels from the worktree root down to the `{branch}` placeholder of a
/// directory template.
pub fn calculate_branch_depth(template: &str) -> (r: usize)
    ensures
        r == branch_depth(template@),
{
    let cs = chars_of(template);
    let pat = chars_of("{branch}");
    let n = cs.len();
    let mut i: usize = 0;
    while i < n && !span_has_prefix(&cs, i, n, &pat)
        invariant
            i <= n,
            n == cs@.len(),
            cs@ == template@,
            pat@ == branch_placeholder(),
            forall|t: int| 0 <= t < i ==> !has_prefix(#[trigger] cs@.skip(t), pat@),
        decreases n - i,
    {
        assert(cs@.subrange(i as int, n as int) =~= cs@.skip(i as int));
        i += 1;
    }
    proof {
        if i < n {
            assert(cs@.subrange(i as int, n as int) =~= cs@.skip(i as int));
        }
        lemma_find_seq(cs@, pat@, i as int);
    }
    let before = substring(template, 0, i);
    assert(before@ =~= template@.take(i as int));
    let comps = components_of(before.as_str());
    let dot = String::from_str(".");
    let dotdot = String::from_str("..");
    let ghost vs = seqs(comps@);
    let mut count: usize = 0;
    let mut k: usize = 0;
    assert(vs.take(0) =~= seq![]);
    while k < comps.len()
        invariant
            vs == seqs(comps@),
            dot@ == "."@,
            dotdot@ == ".."@,
            k <= comps@.len(),
            count == count_normal(vs.take(k as int)),
            count <= k,
        decreases comps@.len() - k,
    {
        assert(vs.take(k + 1).drop_last() =~= vs.take(k as int));
        assert(vs[k as int] == comps@[k as int]@);
        if !is_root_component(&comps[k]) && comps[k] != dot && comps[k] != dotdot {
            count += 1;
        }
        k += 1;
    }
    assert(vs.take(k as int) =~= vs);
    count
}

/// `p` with `Path::parent` applied `d` times; none once there is no parent.
pub open spec fn ancestor(p: Seq<char>, d: nat) -> Option<Seq<char>>
    decreases d,
{
    if d == 0 {
        Some(p)
    } else {
        match parent(p) {
            Some(q) => ancestor(q, (d - 1) as nat),
            None => None,
        }
    }
}

/// The worktree root for a single-level branch name: `worktree_path` taken
/// up as many levels as the template nests `{branch}`.
pub fn calculate_worktree_root(worktree_path: &str, template: &str) -> (r: Option<String>)
    ensures
        opt_seq(r) == ancestor(worktree_path@, branch_depth(template@)),
{
    let depth = calculate_branch_depth(template);
    let mut root = String::from_str(worktree_path);
    let mut k: usize = 0;
    while k < depth
        invariant
            k <= depth,
            depth == branch_depth(template@),
            ancestor(worktree_path@, depth as nat) == ancestor(root@, (depth - k) as nat),
        decreases depth - k,
    {
        match parent_of(root.as_str()) {
            Some(q) => {
                root = q;
            },
            None => {
                return None;
            },
        }
        k += 1;
    }
    Some(root)
}

pub open spec fn tilde_tail(rel: Seq<char>) -> Seq<char> {
    if rel.len() == 0 {
        "~"@
    } else {
        "~/"@ + rel
    }
}

/// How a path is shown to a person: normalized, and written from `~` when it
/// lies under `home`.
pub open spec fn home_display(p: Seq<char>, home: Option<Seq<char>>) -> Seq<char> {
    let n = normalize(p);
    match home {
        Some(h) => match relative_to(n, h) {
            Some(rel) => tilde_tail(rel),
            None => n,
        },
        None => n,
    }
}

/// `path` normalized, and written from `~` when it lies under `home`.
pub fn display_path_with_home(path: &str, home: Option<&str>) -> (r: String)
    ensures
        r@ == home_display(path@, match home { Some(h) => Some(h@), None => None }),
{
    let n = normalize_path_lexically(path);
    match home {
        Some(h) => match calculate_relative_path(n.as_str(), h) {
            Some(rel) => {
                if rel.as_str().unicode_len() == 0 {
                    String::from_str("~")
                } else {
                    String::from_str("~/").concat(rel.as_str())
                }
            },
            None => n,
        },
        None => n,
    }
}


/// `PathBuf::join`: `p` itself when absolute or when `base` is empty, else
/// `p` appended to `base` with one `/` between them.
pub open spec fn join_path(base: Seq<char>, p: Seq<char>) -> Seq<char> {
    if is_absolute(p) || base.len() == 0 {
        p
    } else if base.last() == '/' {
        base + p
    } else {
        base + seq!['/'] + p
    }
}

/// `base` joined with `p`: see `join_path`.
pub fn join_paths(base: &str, p: &str) -> (r: String)
    ensures
        r@ == join_path(base@, p@),
{
    let pn = p.unicode_len();
    let bn = base.unicode_len();
    if (pn > 0 && p.get_char(0) == '/') || bn == 0 {
        return String::from_str(p);
    }
    if base.get_char(bn - 1) == '/' {
        String::from_str(base).concat(p)
    } else {
        proof {
            reveal_strlit("/");
            assert("/"@ =~= seq!['/']);
        }
        String::from_str(base).concat("/").concat(p)
    }
}

/// `base` with each name of `tail` joined on in turn.
pub open spec fn reattach(base: Seq<char>, tail: Seq<Seq<char>>) -> Seq<char>
    decreases tail.len(),
{
    if tail.len() == 0 {
        base
    } else {
        join_path(reattach(base, tail.drop_last()), tail.last())
    }
}

/// Relies on `std::path::Path::canonicalize`, which resolves symlinks and
/// needs the path to exist; its result is absolute, with every component
/// normalized (no `.`, `..` or empty segment).
#[verifier::external_body]
pub(crate) fn canonicalize_existing(p: &str) -> (r: Option<String>)
    ensures
        match r {
            Some(c) => is_absolute(c@) && clean_path(c@),
            None => true,
        },
{
    match std::path::Path::new(p).canonicalize() {
        Ok(c) => Some(c.display().to_string()),
        Err(_) => None,
    }
}

/// Relies on `std::path::Path::exists`: whether the path is there on disk now.
#[verifier::external_body]
fn path_exists(p: &str) -> (r: bool) {
    std::path::Path::new(p).exists()
}

/// Number of leading components no ancestor walk removes: the root.
pub open spec fn fixed_len(cs: Seq<Seq<char>>) -> int {
    if cs.len() > 0 && cs[0] == seq!['/'] {
        1
    } else {
        0
    }
}

/// The deepest `j` with `lo <= j <= k` whose answer is known.
pub open spec fn deepest_known(disk: Seq<Option<Seq<char>>>, lo: int, k: int) -> Option<int>
    decreases k - lo + 1,
{
    if k < lo {
        None
    } else if disk[k] is Some {
        Some(k)
    } else {
        deepest_known(disk, lo, k - 1)
    }
}

/// Canonical form of the normalized path `n` given the disk's answers:
/// `disk[k]` is the canonical form of the ancestor made of the first `k`
/// components of `n` (`disk[len]` that of `n` itself), none when it does
/// not exist. The deepest ancestor with an answer is taken and the rest of
/// `n` joined back on in order; `n` itself when no ancestor has one.
pub open spec fn canonical_from(n: Seq<char>, disk: Seq<Option<Seq<char>>>) -> Seq<char> {
    let cs = components(n);
    match deepest_known(disk, fixed_len(cs), cs.len() as int) {
        Some(j) => reattach(disk[j]->0, cs.skip(j)),
        None => n,
    }
}

/// `c` is a canonical form of `p` taken from `cwd`, for some state of the
/// disk whose canonical forms are absolute.
pub open spec fn canonical_of(c: Seq<char>, p: Seq<char>, cwd: Seq<char>) -> bool {
    let n = normalize(join_path(cwd, p));
    exists|disk: Seq<Option<Seq<char>>>|
        disk.len() == components(n).len() + 1 && (forall|k: int| 0 <= k < disk.len() && (#[trigger] disk[k]) is Some ==> is_absolute(disk[k]->0))
            && c == #[trigger] canonical_from(n, disk)
}

pub open spec fn opt_seqs(v: Seq<Option<String>>) -> Seq<Option<Seq<char>>> {
    v.map_values(|o: Option<String>| opt_seq(o))
}

proof fn lemma_deepest_known(disk: Seq<Option<Seq<char>>>, lo: int, k: int)
    requires
        0 <= lo,
        k < disk.len(),
    ensures
        match deepest_known(disk, lo, k) {
            Some(j) => lo <= j <= k && disk[j] is Some && forall|t: int| j < t <= k ==> disk[t] is None,
            None => forall|t: int| lo <= t <= k ==> disk[t] is None,
        },
    decreases k - lo + 1,
{
    if k >= lo && disk[k] is None {
        lemma_deepest_known(disk, lo, k - 1);
    }
}

/// The canonical form of the normalized path `normalized` from the disk's
/// answers for its ancestors: see `canonical_from`.
pub fn canonical_from_answers(normalized: &str, answers: &Vec<Option<String>>) -> (r: String)
    requires
        answers@.len() == components(normalized@).len() + 1,
    ensures
        r@ == canonical_from(normalized@, opt_seqs(answers@)),
        (forall|k: int| 0 <= k < answers@.len() && (#[trigger] answers@[k]) is Some ==> is_absolute(answers@[k]->0@))
            ==> (r@ == normalized@ || is_absolute(r@)),
{
    let ghost disk = opt_seqs(answers@);
    let comps = components_of(normalized);
    let fixed: usize = if comps.len() > 0 && is_root_component(&comps[0]) { 1 } else { 0 };
    assert(fixed as int == fixed_len(seqs(comps@))) by {
        if comps@.len() > 0 {
            assert(seqs(comps@)[0] == comps@[0]@);
        }
    }
    let mut k: usize = comps.len();
    proof {
        lemma_deepest_known(disk, fixed as int, comps@.len() as int);
    }
    loop
        invariant
            fixed <= k <= comps@.len(),
            seqs(comps@) == components(normalized@),
            disk == opt_seqs(answers@),
            answers@.len() == comps@.len() + 1,
            fixed as int == fixed_len(seqs(comps@)),
            deepest_known(disk, fixed as int, comps@.len() as int) == deepest_known(disk, fixed as int, k as int),
        decreases k,
    {
        assert(disk[k as int] == opt_seq(answers@[k as int]));
        match &answers[k] {
            Some(base) => {
                let r = reattach_names(base.clone(), &comps, k);
                return r;
            },
            None => {},
        }
        if k == fixed {
            assert(deepest_known(disk, fixed as int, k - 1) is None);
            return String::from_str(normalized);
        }
        k -= 1;
    }
}

/// Canonical form of a path that may not exist: the deepest existing
/// ancestor of the normalized absolute path is canonicalized and the rest of
/// the path is joined back on. Relative paths are taken from `cwd`. When no
/// ancestor can be canonicalized the normalized path is returned. The disk
/// is read through `Path::canonicalize` and `Path::exists`; the result is
/// `canonical_from` for whatever they answered.
pub fn canonicalize_allow_missing(path: &str, cwd: &str) -> (r: String)
    ensures
        canonical_of(r@, path@, cwd@),
        r@ == normalize(join_path(cwd@, path@)) || is_absolute(r@),
        is_absolute(join_path(cwd@, path@)) ==> is_absolute(r@),
{
    let absolute = join_paths(cwd, path);
    let normalized = normalize_path_lexically(absolute.as_str());
    assert(is_absolute(absolute@) ==> is_absolute(normalized@)) by {
        if is_absolute(absolute@) {
            assert(normalized@ == seq!['/'] + join(names(absolute@)));
            assert(normalized@[0] == '/');
        }
    }
    let comps = components_of(normalized.as_str());
    let n = comps.len();
    let mut answers: Vec<Option<String>> = Vec::new();
    let mut k: usize = 0;
    while k < n
        invariant
            k <= n,
            n == comps@.len(),
            answers@.len() == k,
            forall|t: int| 0 <= t < answers@.len() && (#[trigger] answers@[t]) is Some ==> is_absolute(answers@[t]->0@),
        decreases n - k,
    {
        let ancestor = path_from_components(&comps, k);
        let answer = if path_exists(ancestor.as_str()) {
            canonicalize_existing(ancestor.as_str())
        } else {
            None
        };
        answers.push(answer);
        k += 1;
    }
    answers.push(canonicalize_existing(normalized.as_str()));
    assert(forall|t: int| 0 <= t < answers@.len() && (#[trigger] answers@[t]) is Some ==> is_absolute(answers@[t]->0@));
    let r = canonical_from_answers(normalized.as_str(), &answers);
    proof {
        let disk = opt_seqs(answers@);
        assert(disk.len() == components(normalized@).len() + 1);
        assert forall|t: int| 0 <= t < disk.len() && (#[trigger] disk[t]) is Some implies is_absolute(disk[t]->0) by {
            assert(disk[t] == opt_seq(answers@[t]));
        }
        assert(r@ == canonical_from(normalized@, disk));
        if is_absolute(join_path(cwd@, path@)) && r@ == normalized@ {
            assert(is_absolute(r@));
        }
    }
    r
}

proof fn lemma_join_path_absolute(base: Seq<char>, p: Seq<char>)
    requires
        is_absolute(base),
    ensures
        is_absolute(join_path(base, p)),
{
    if !is_absolute(p) && base.len() > 0 {
        if base.last() == '/' {
            assert((base + p)[0] == base[0]);
        } else {
            assert((base + seq!['/'] + p)[0] == base[0]);
        }
    }
}

/// `base` with the names `cs[from..]` joined on: see `reattach`.
fn reattach_names(base: String, cs: &Vec<String>, from: usize) -> (r: String)
    requires
        from <= cs@.len(),
    ensures
        r@ == reattach(base@, seqs(cs@).skip(from as int)),
        is_absolute(base@) ==> is_absolute(r@),
{
    let ghost tail = seqs(cs@).skip(from as int);
    let mut out = base;
    let mut k: usize = from;
    assert(tail.take(0) =~= seq![]);
    while k < cs.len()
        invariant
            from <= k <= cs@.len(),
            tail == seqs(cs@).skip(from as int),
            out@ == reattach(base@, tail.take(k - from)),
            is_absolute(base@) ==> is_absolute(out@),
        decreases cs@.len() - k,
    {
        proof {
            assert(tail.take(k - from + 1).drop_last() =~= tail.take(k - from));
            assert(tail[k - from] == cs@[k as int]@);
            if is_absolute(base@) {
                lemma_join_path_absolute(out@, cs@[k as int]@);
            }
        }
        out = join_paths(out.as_str(), cs[k].as_str());
        k += 1;
    }
    assert(tail.take(k - from) =~= tail);
    out
}

/// Normalized absolute form of `path`, never written from `~`: a relative
/// path is first made absolute with `canonicalize_allow_missing`.
pub fn normalize_absolute_path(path: &str, cwd: &str) -> (r: String)
    ensures
        is_absolute(path@) ==> r@ == normalize(path@),
        !is_absolute(path@) ==> exists|c: Seq<char>| canonical_of(c, path@, cwd@) && r@ == #[trigger] normalize(c),
{
    if path.unicode_len() > 0 && path.get_char(0) == '/' {
        normalize_path_lexically(path)
    } else {
        let abs = canonicalize_allow_missing(path, cwd);
        normalize_path_lexically(abs.as_str())
    }
}

/// Relies on `dirs::home_dir`: the user's home directory, when one is known.
#[verifier::external_body]
pub(crate) fn home_dir() -> (r: Option<String>) {
    dirs::home_dir().map(|h| h.display().to_string())
}

/// `path` normalized and written from `~` when it lies under the user's home
/// directory; purely for showing to a person.
pub fn display_path(path: &str) -> (r: String)
    ensures
        exists|h: Option<Seq<char>>| r@ == home_display(path@, h),
{
    let home = home_dir();
    match home {
        Some(h) => {
            let r = display_path_with_home(path, Some(h.as_str()));
            assert(r@ == home_display(path@, Some(h@)));
            r
        },
        None => {
            let r = display_path_with_home(path, None);
            assert(r@ == home_display(path@, None));
            r
        },
    }
}


/// `str::replace` with a non-empty pattern: every non-overlapping
/// occurrence of `pat`, left to right, replaced by `rep`.
pub open spec fn replace_all(s: Seq<char>, pat: Seq<char>, rep: Seq<char>) -> Seq<char>
    decreases s.len(),
{
    if s.len() == 0 {
        s
    } else if pat.len() > 0 && has_prefix(s, pat) {
        rep + replace_all(s.skip(pat.len() as int), pat, rep)
    } else {
        seq![s[0]] + replace_all(s.skip(1), pat, rep)
    }
}

/// `s` with every occurrence of `pat` replaced by `rep`: see `replace_all`.
pub fn replace_text(s: &str, pat: &str, rep: &str) -> (r: String)
    requires
        pat@.len() > 0,
    ensures
        r@ == replace_all(s@, pat@, rep@),
{
    let cs = chars_of(s);
    let pc = chars_of(pat);
    let n = cs.len();
    let mut out = String::new();
    let mut i: usize = 0;
    assert(cs@.skip(0) =~= cs@);
    while i < n
        invariant
            n == cs@.len(),
            cs@ == s@,
            pc@ == pat@,
            pat@.len() > 0,
            i <= n,
            replace_all(s@, pat@, rep@) == out@ + replace_all(cs@.skip(i as int), pat@, rep@),
        decreases n - i,
    {
        let ghost rest = cs@.skip(i as int);
        assert(cs@.subrange(i as int, n as int) =~= rest);
        if span_has_prefix(&cs, i, n, &pc) {
            let ghost before = out@;
            out.append(rep);
            assert(rest.skip(pat@.len() as int) =~= cs@.skip(i + pat@.len()));
            assert(replace_all(rest, pat@, rep@) == rep@ + replace_all(rest.skip(pat@.len() as int), pat@, rep@));
            assert(replace_all(s@, pat@, rep@) =~= out@ + replace_all(cs@.skip(i + pat@.len()), pat@, rep@));
            i = i + pc.len();
        } else {
            let ghost before = out@;
            out.append(s.substring_char(i, i + 1));
            assert(rest.skip(1) =~= cs@.skip(i + 1));
            assert(s@.subrange(i as int, i + 1) =~= seq![rest[0]]);
            assert(replace_all(rest, pat@, rep@) == seq![rest[0]] + replace_all(rest.skip(1), pat@, rep@));
            assert(replace_all(s@, pat@, rep@) =~= out@ + replace_all(cs@.skip(i + 1), pat@, rep@));
            i = i + 1;
        }
    }
    assert(cs@.skip(n as int).len() == 0);
    out
}

/// Where a new worktree goes: the directory template with `{repo}` and
/// `{branch}` filled in, taken from the repository root unless absolute.
pub open spec fn worktree_location(template: Seq<char>, repo_root: Seq<char>, repo_name: Seq<char>, branch: Seq<char>) -> Seq<char> {
    let filled = replace_all(replace_all(template, "{repo}"@, repo_name), "{branch}"@, branch);
    if filled.len() > 0 && filled[0] == '/' {
        filled
    } else {
        join_path(repo_root, filled)
    }
}

/// The path of a new worktree: see `worktree_location`.
pub fn expand_worktree_path(template: &str, repo_root: &str, repo_name: &str, branch: &str) -> (r: String)
    ensures
        r@ == worktree_location(template@, repo_root@, repo_name@, branch@),
{
    proof {
        reveal_strlit("{repo}");
        reveal_strlit("{branch}");
    }
    let with_repo = replace_text(template, "{repo}", repo_name);
    let filled = replace_text(with_repo.as_str(), "{branch}", branch);
    if filled.as_str().unicode_len() > 0 && filled.as_str().get_char(0) == '/' {
        filled
    } else {
        join_paths(repo_root, filled.as_str())
    }
}


/// A segment that names a directory entry: not empty, not `.` or `..`, and
/// without `/`.
pub open spec fn is_name(x: Seq<char>) -> bool {
    x.len() > 0 && x != "."@ && x != ".."@ && forall|i: int| 0 <= i < x.len() ==> x[i] != '/'
}

pub open spec fn all_names(segs: Seq<Seq<char>>) -> bool {
    forall|i: int| 0 <= i < segs.len() ==> is_name(#[trigger] segs[i])
}

/// A path already free of `.`, `..` and empty segments: empty, the root,
/// or names joined with `/`, after a leading `/` when absolute.
pub open spec fn clean_path(p: Seq<char>) -> bool {
    ||| p.len() == 0
    ||| p == seq!['/']
    ||| (is_absolute(p) && all_names(split(p.skip(1), '/')))
    ||| (!is_absolute(p) && all_names(split(p, '/')))
}

proof fn lemma_first_of_prefix(s: Seq<char>, c: char)
    ensures
        forall|t: int| 0 <= t < crate::text::first_of(s, c) ==> s[t] != c,
        crate::text::first_of(s, c) < s.len() ==> s[crate::text::first_of(s, c) as int] == c,
    decreases s.len(),
{
    crate::text::lemma_first_of_bound(s, c);
    if s.len() > 0 && s[0] != c {
        lemma_first_of_prefix(s.skip(1), c);
        crate::text::lemma_first_of_bound(s.skip(1), c);
        assert forall|t: int| 0 <= t < crate::text::first_of(s, c) implies s[t] != c by {
            if t > 0 {
                assert(s[t] == s.skip(1)[t - 1]);
            }
        }
    }
}

proof fn lemma_split_no_sep(s: Seq<char>, c: char)
    ensures
        forall|i: int, t: int|
            0 <= i < split(s, c).len() && 0 <= t < split(s, c)[i].len() ==> #[trigger] split(s, c)[i][t] != c,
    decreases s.len(),
{
    let k = crate::text::first_of(s, c);
    crate::text::lemma_first_of_bound(s, c);
    lemma_first_of_prefix(s, c);
    if k < s.len() {
        lemma_split_no_sep(s.skip(k + 1 as int), c);
        let rest = split(s.skip(k + 1 as int), c);
        assert(split(s, c) == seq![s.take(k as int)] + rest);
        assert forall|i: int, t: int| 0 <= i < split(s, c).len() && 0 <= t < split(s, c)[i].len() implies #[trigger] split(
            s,
            c,
        )[i][t] != c by {
            if i > 0 {
                assert(split(s, c)[i] == rest[i - 1]);
            }
        }
    } else {
        assert(split(s, c) == seq![s]);
    }
}

proof fn lemma_norm_stack_from(segs: Seq<Seq<char>>)
    ensures
        forall|i: int|
            0 <= i < norm_stack(segs).len() ==> !is_filler(#[trigger] norm_stack(segs)[i]) && norm_stack(segs)[i]
                != ".."@ && exists|j: int| 0 <= j < segs.len() && segs[j] == norm_stack(segs)[i],
    decreases segs.len(),
{
    if segs.len() > 0 {
        let prev = segs.drop_last();
        lemma_norm_stack_from(prev);
        let st = norm_stack(prev);
        let nx = norm_stack(segs);
        assert forall|i: int| 0 <= i < nx.len() implies !is_filler(#[trigger] nx[i]) && nx[i] != ".."@ && exists|j: int|
            0 <= j < segs.len() && segs[j] == nx[i] by {
            if i < st.len() && (nx == st || nx == st.drop_last() || nx == st.push(segs.last())) {
                assert(nx[i] == st[i]);
                let j = choose|j: int| 0 <= j < prev.len() && prev[j] == st[i];
                assert(segs[j] == prev[j]);
            } else {
                assert(nx == st.push(segs.last()));
                assert(nx[i] == segs[segs.len() - 1]);
            }
        }
    }
}

/// Every name left by normalization is a name.
proof fn lemma_names_clean(p: Seq<char>)
    ensures
        all_names(names(p)),
{
    lemma_norm_stack_from(split(p, '/'));
    lemma_split_no_sep(p, '/');
    let st = names(p);
    assert forall|i: int| 0 <= i < st.len() implies is_name(#[trigger] st[i]) by {
        let j = choose|j: int| 0 <= j < split(p, '/').len() && split(p, '/')[j] == st[i];
        assert forall|t: int| 0 <= t < st[i].len() implies st[i][t] != '/' by {
            assert(split(p, '/')[j][t] != '/');
        }
    }
}

proof fn lemma_norm_stack_names(segs: Seq<Seq<char>>)
    requires
        all_names(segs),
    ensures
        norm_stack(segs) == segs,
    decreases segs.len(),
{
    if segs.len() > 0 {
        let prev = segs.drop_last();
        assert forall|i: int| 0 <= i < prev.len() implies is_name(#[trigger] prev[i]) by {
            assert(prev[i] == segs[i]);
        }
        lemma_norm_stack_names(prev);
        assert(is_name(segs[segs.len() - 1]));
        assert(segs.last() != "."@);
        assert(prev.push(segs.last()) =~= segs);
    }
}

proof fn lemma_norm_stack_after_filler(segs: Seq<Seq<char>>)
    requires
        segs.len() > 0,
        is_filler(segs[0]),
        all_names(segs.skip(1)),
    ensures
        norm_stack(segs) == segs.skip(1),
    decreases segs.len(),
{
    if segs.len() == 1 {
        assert(segs.drop_last() =~= Seq::<Seq<char>>::empty());
        assert(norm_stack(segs.drop_last()) =~= Seq::<Seq<char>>::empty());
        assert(segs.last() == segs[0]);
        assert(segs.skip(1) =~= Seq::<Seq<char>>::empty());
    } else {
        let prev = segs.drop_last();
        assert(prev[0] == segs[0]);
        assert forall|i: int| 0 <= i < prev.skip(1).len() implies is_name(#[trigger] prev.skip(1)[i]) by {
            assert(prev.skip(1)[i] == segs.skip(1)[i]);
        }
        lemma_norm_stack_after_filler(prev);
        assert(is_name(segs.skip(1)[segs.len() - 2]));
        assert(segs.skip(1)[segs.len() - 2] == segs.last());
        assert(segs.last() != "."@);
        assert(prev.skip(1).push(segs.last()) =~= segs.skip(1));
    }
}

proof fn lemma_join_cons(a: Seq<char>, rest: Seq<Seq<char>>)
    requires
        rest.len() > 0,
    ensures
        join(seq![a] + rest) == a + seq!['/'] + join(rest),
    decreases rest.len(),
{
    let whole = seq![a] + rest;
    if rest.len() == 1 {
        assert(whole.drop_last() =~= seq![a]);
        assert(seq![a][0] == a);
        assert(join(seq![a]) == a);
        assert(join(rest) == rest[0]);
        assert(whole.last() == rest[0]);
    } else {
        lemma_join_cons(a, rest.drop_last());
        assert(whole.drop_last() =~= seq![a] + rest.drop_last());
        assert(whole.last() == rest.last());
    }
}

/// Joining the pieces of a split gives the text back.
proof fn lemma_join_split(s: Seq<char>)
    ensures
        join(split(s, '/')) == s,
    decreases s.len(),
{
    let k = crate::text::first_of(s, '/');
    crate::text::lemma_first_of_bound(s, '/');
    lemma_first_of_prefix(s, '/');
    if k < s.len() {
        let tail = s.skip(k + 1 as int);
        lemma_join_split(tail);
        let rest = split(tail, '/');
        assert(split(s, '/') == seq![s.take(k as int)] + rest);
        lemma_split_len(tail);
        lemma_join_cons(s.take(k as int), rest);
        assert(s.take(k as int) + seq!['/'] + tail =~= s);
    } else {
        assert(split(s, '/') == seq![s]);
    }
}

proof fn lemma_split_len(s: Seq<char>)
    ensures
        split(s, '/').len() > 0,
{
    let k = crate::text::first_of(s, '/');
    if k < s.len() {
        assert(split(s, '/') == seq![s.take(k as int)] + split(s.skip(k + 1 as int), '/'));
    } else {
        assert(split(s, '/') == seq![s]);
    }
}

/// Splitting names joined with `/` gives the names back.
proof fn lemma_split_join(st: Seq<Seq<char>>)
    requires
        st.len() > 0,
        all_names(st),
    ensures
        split(join(st), '/') == st,
    decreases st.len(),
{
    let a = st[0];
    assert(is_name(a));
    if st.len() == 1 {
        assert(join(st) == a);
        crate::text::lemma_first_of_bound(a, '/');
        lemma_first_of_prefix(a, '/');
        assert(split(a, '/') == seq![a]) by {
            if crate::text::first_of(a, '/') < a.len() {
                assert(a[crate::text::first_of(a, '/') as int] == '/');
            }
        }
        assert(seq![a] =~= st);
    } else {
        let rest = st.skip(1);
        assert forall|i: int| 0 <= i < rest.len() implies is_name(#[trigger] rest[i]) by {
            assert(rest[i] == st[i + 1]);
        }
        lemma_split_join(rest);
        assert(seq![a] + rest =~= st);
        lemma_join_cons(a, rest);
        let x = a + seq!['/'] + join(rest);
        assert(join(st) == x);
        assert forall|t: int| 0 <= t < a.len() implies x[t] != '/' by {
            assert(x[t] == a[t]);
        }
        assert(x[a.len() as int] == '/');
        crate::text::lemma_first_of(x, '/', a.len() as int);
        assert(x.take(a.len() as int) =~= a);
        assert(x.skip(a.len() + 1 as int) =~= join(rest));
        assert(split(x, '/') == seq![x.take(a.len() as int)] + split(x.skip(a.len() + 1 as int), '/'));
    }
}

/// A path already free of `.`, `..` and empty segments is its own normal
/// form.
pub proof fn lemma_normalize_clean(p: Seq<char>)
    requires
        clean_path(p),
    ensures
        normalize(p) == p,
{
    reveal_strlit(".");
    reveal_strlit("..");
    if p.len() == 0 {
        assert(split(p, '/') == seq![p]);
        assert(seq![p].drop_last() =~= Seq::<Seq<char>>::empty());
        assert(norm_stack(seq![p].drop_last()) =~= Seq::<Seq<char>>::empty());
        assert(seq![p].last() == p);
        assert(names(p) =~= Seq::<Seq<char>>::empty());
        assert(normalize(p) =~= p);
    } else if p == seq!['/'] {
        let ss = split(p, '/');
        crate::text::lemma_first_of(p, '/', 0);
        assert(p.skip(1).len() == 0);
        assert(split(p.skip(1), '/') == seq![p.skip(1)]);
        assert(ss == seq![p.take(0)] + seq![p.skip(1)]);
        assert(p.take(0).len() == 0);
        assert(ss.drop_last() =~= seq![p.take(0)]);
        assert(seq![p.take(0)].drop_last() =~= Seq::<Seq<char>>::empty());
        assert(norm_stack(seq![p.take(0)].drop_last()) =~= Seq::<Seq<char>>::empty());
        assert(seq![p.take(0)].last() == p.take(0));
        assert(norm_stack(seq![p.take(0)]) =~= Seq::<Seq<char>>::empty());
        assert(ss.last() == p.skip(1));
        assert(names(p) =~= Seq::<Seq<char>>::empty());
        assert(normalize(p) =~= p);
    } else if is_absolute(p) {
        crate::text::lemma_first_of(p, '/', 0);
        let tail = p.skip(1);
        let ss = split(p, '/');
        assert(ss == seq![p.take(0)] + split(tail, '/'));
        assert(ss[0] == p.take(0));
        assert(ss.skip(1) =~= split(tail, '/'));
        lemma_norm_stack_after_filler(ss);
        lemma_join_split(tail);
        assert(normalize(p) =~= seq!['/'] + tail);
        assert(seq!['/'] + tail =~= p);
    } else {
        lemma_norm_stack_names(split(p, '/'));
        lemma_join_split(p);
    }
}

proof fn lemma_kept_norm_stack(segs: Seq<Seq<char>>)
    requires
        forall|i: int| 0 <= i < segs.len() ==> #[trigger] segs[i] != ".."@,
    ensures
        kept(segs) == norm_stack(segs),
    decreases segs.len(),
{
    if segs.len() > 0 {
        let prev = segs.drop_last();
        assert forall|i: int| 0 <= i < prev.len() implies #[trigger] prev[i] != ".."@ by {
            assert(prev[i] == segs[i]);
        }
        lemma_kept_norm_stack(prev);
        assert(segs[segs.len() - 1] != ".."@);
    }
}

/// The pieces of a path made of a root (or none) and names.
proof fn lemma_split_rooted(root: Seq<char>, st: Seq<Seq<char>>)
    requires
        root == seq!['/'] || root.len() == 0,
        all_names(st),
    ensures
        kept(split(root + join(st), '/')) == st,
        forall|i: int| 0 <= i < split(root + join(st), '/').len() ==> #[trigger] split(root + join(st), '/')[i] != ".."@,
        root.len() == 0 ==> split(root + join(st), '/')[0] != "."@,
        lead(root + join(st)) == (if root.len() > 0 { seq![seq!['/']] } else { Seq::<Seq<char>>::empty() }),
{
    reveal_strlit(".");
    reveal_strlit("..");
    let q = root + join(st);
    let e = Seq::<char>::empty();
    if st.len() > 0 {
        lemma_split_join(st);
        assert(is_name(st[0]));
        if st.len() > 1 {
            lemma_join_cons(st[0], st.skip(1));
            assert(seq![st[0]] + st.skip(1) =~= st);
        } else {
            assert(join(st) == st[0]);
        }
        assert(join(st)[0] == st[0][0]);
    }
    let pieces = split(q, '/');
    if root.len() > 0 {
        crate::text::lemma_first_of(q, '/', 0);
        assert(q.take(0) =~= e);
        assert(q.skip(1) =~= join(st));
        assert(pieces == seq![e] + split(join(st), '/'));
        if st.len() == 0 {
            assert(join(st).len() == 0);
            assert(split(join(st), '/') == seq![join(st)]);
            assert(pieces =~= seq![e, e]);
            assert(seq![e, e].drop_last() =~= seq![e]);
            assert(seq![e].drop_last() =~= Seq::<Seq<char>>::empty());
            assert(is_filler(e));
            assert(seq![e].last() == e && seq![e, e].last() == e);
            assert(kept(seq![e].drop_last()) =~= Seq::<Seq<char>>::empty());
            assert(kept(seq![e]) =~= Seq::<Seq<char>>::empty());
            assert(kept(pieces) =~= st);
        } else {
            assert(pieces =~= seq![e] + st);
            assert forall|i: int| 0 <= i < pieces.len() implies #[trigger] pieces[i] != ".."@ by {
                if i > 0 {
                    assert(pieces[i] == st[i - 1]);
                }
            }
            lemma_kept_norm_stack(pieces);
            assert(pieces.skip(1) =~= st);
            lemma_norm_stack_after_filler(pieces);
        }
        assert(is_absolute(q));
    } else {
        assert(q =~= join(st));
        if st.len() == 0 {
            assert(join(st).len() == 0);
            assert(q.len() == 0);
            assert(pieces == seq![q]);
            assert(q =~= e);
            assert(seq![e].drop_last() =~= Seq::<Seq<char>>::empty());
            assert(is_filler(e));
            assert(seq![e].last() == e);
            assert(kept(seq![e].drop_last()) =~= Seq::<Seq<char>>::empty());
            assert(kept(pieces) =~= st);
        } else {
            assert(pieces == st);
            assert forall|i: int| 0 <= i < pieces.len() implies #[trigger] pieces[i] != ".."@ by {
                assert(is_name(st[i]));
            }
            lemma_kept_norm_stack(pieces);
            lemma_norm_stack_names(st);
            assert(!is_absolute(q));
        }
    }
}

/// A path without `..` components (and, when relative, without a leading
/// `.`) has the same components once normalized: normalizing only drops
/// `.` segments and doubled or trailing `/`, which `Path` equality ignores.
pub proof fn lemma_normalize_same_components(p: Seq<char>)
    requires
        forall|i: int| 0 <= i < split(p, '/').len() ==> #[trigger] split(p, '/')[i] != ".."@,
        is_absolute(p) || split(p, '/')[0] != "."@,
    ensures
        components(normalize(p)) == components(p),
{
    lemma_split_len(p);
    lemma_names_clean(p);
    lemma_kept_norm_stack(split(p, '/'));
    let st = names(p);
    lemma_split_rooted(root_of(p), st);
    if is_absolute(p) {
        assert(lead(p) == seq![seq!['/']]);
    } else {
        assert(lead(p) == Seq::<Seq<char>>::empty());
    }
}

/// Normalizing twice gives what normalizing once gives.
pub proof fn lemma_normalize_idempotent(p: Seq<char>)
    ensures
        normalize(normalize(p)) == normalize(p),
{
    let st = names(p);
    let q = normalize(p);
    lemma_names_clean(p);
    if st.len() == 0 {
        assert(join(st) == Seq::<char>::empty());
        assert(q =~= root_of(p));
    } else {
        lemma_split_join(st);
        assert(is_name(st[0]));
        if st.len() == 1 {
            assert(join(st) == st[0]);
        } else {
            lemma_join_cons(st[0], st.skip(1));
            assert(seq![st[0]] + st.skip(1) =~= st);
        }
        assert(join(st).len() > 0 && join(st)[0] != '/') by {
            if st.len() > 1 {
                assert(join(st) == st[0] + seq!['/'] + join(st.skip(1)));
                assert(join(st)[0] == st[0][0]);
            }
        }
        if is_absolute(p) {
            assert(q == seq!['/'] + join(st));
            assert(q.skip(1) =~= join(st));
            assert(is_absolute(q));
        } else {
            assert(q =~= join(st));
        }
    }
    lemma_normalize_clean(q);
}

} // verus!
