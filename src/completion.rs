//! Candidates offered by shell completion.
use vstd::prelude::*;

use crate::integrations::{trim_span, trimmed};
use crate::paths::{calculate_relative_path, calculate_worktree_root_from_paths};
use crate::porcelain::{parse_worktree_entries, parse_worktree_list};
use crate::text::{
    chars_of, first_of, has_prefix, line_spans, lines, seqs, span_has_prefix, span_matches, spans_match, substring,
};

verus! {

/// The reference name of a `for-each-ref` line: the text before its first
/// tab, trimmed.
pub open spec fn ref_name(line: Seq<char>) -> Seq<char> {
    trimmed(line.take(first_of(line, '\t') as int))
}

/// The symbolic-reference column of a `for-each-ref` line: the text
/// between its first and second tab, trimmed; empty without a tab.
pub open spec fn ref_symref(line: Seq<char>) -> Seq<char> {
    let k = first_of(line, '\t');
    if k < line.len() {
        let rest = line.skip(k + 1 as int);
        trimmed(rest.take(first_of(rest, '\t') as int))
    } else {
        Seq::<char>::empty()
    }
}

/// Names of the non-symbolic references that start with `prefix`, in order.
pub open spec fn ref_candidates(ls: Seq<Seq<char>>, prefix: Seq<char>) -> Seq<Seq<char>>
    decreases ls.len(),
{
    if ls.len() == 0 {
        seq![]
    } else {
        let rest = ref_candidates(ls.drop_last(), prefix);
        let l = ls.last();
        if ref_symref(l).len() == 0 && has_prefix(ref_name(l), prefix) {
            rest.push(ref_name(l))
        } else {
            rest
        }
    }
}

/// First tab in `cs[a..b]`, or `b`.
fn find_tab(cs: &Vec<char>, a: usize, b: usize) -> (r: usize)
    requires
        a <= b <= cs@.len(),
    ensures
        a <= r <= b,
        r - a == first_of(cs@.subrange(a as int, b as int), '\t'),
{
    let ghost s = cs@.subrange(a as int, b as int);
    let mut i = a;
    while i < b && cs[i] != '\t'
        invariant
            a <= i <= b,
            b <= cs@.len(),
            s == cs@.subrange(a as int, b as int),
            forall|t: int| 0 <= t < i - a ==> s[t] != '\t',
        decreases b - i,
    {
        i += 1;
    }
    proof {
        crate::text::lemma_first_of(s, '\t', i - a);
    }
    i
}

/// Completion candidates from `git for-each-ref` output with
/// `%(refname:short)%09%(symref)` lines: see `ref_candidates`.
pub fn complete_refs(output: &str, prefix: &str) -> (r: Vec<String>)
    ensures
        seqs(r@) == ref_candidates(lines(output@), prefix@),
{
    let cs = chars_of(output);
    let spans = line_spans(&cs);
    let pc = chars_of(prefix);
    let ghost ls = lines(output@);
    let mut out: Vec<String> = Vec::new();
    let mut i: usize = 0;
    assert(ls.take(0) =~= seq![]);
    while i < spans.len()
        invariant
            cs@ == output@,
            ls == lines(output@),
            pc@ == prefix@,
            spans@.len() == ls.len(),
            spans_match(cs@, spans@, ls, cs@.len() as int),
            i <= spans@.len(),
            seqs(out@) == ref_candidates(ls.take(i as int), prefix@),
        decreases spans@.len() - i,
    {
        let (a, b) = spans[i];
        let ghost line = ls[i as int];
        proof {
            assert(span_matches(cs@, spans@[i as int], ls[i as int], cs@.len() as int));
            assert(ls.take(i + 1).drop_last() =~= ls.take(i as int));
            assert(ls.take(i + 1).last() == line);
        }
        let k = find_tab(&cs, a, b);
        assert(cs@.subrange(a as int, k as int) =~= line.take(first_of(line, '\t') as int));
        let (na, nb) = trim_span(&cs, a, k);
        let symref_empty = if k < b {
            let e = find_tab(&cs, k + 1, b);
            let (sa, sb) = trim_span(&cs, k + 1, e);
            proof {
                let rest = line.skip(first_of(line, '\t') + 1 as int);
                assert(cs@.subrange(k + 1, b as int) =~= rest);
                assert(cs@.subrange(k + 1, e as int) =~= rest.take(first_of(rest, '\t') as int));
            }
            sa == sb
        } else {
            true
        };
        let keep = symref_empty && span_has_prefix(&cs, na, nb, &pc);
        if keep {
            let name = substring(output, na, nb);
            let ghost before = out@;
            out.push(name);
            assert(seqs(out@) =~= seqs(before).push(ref_name(line)));
        }
        i += 1;
    }
    assert(ls.take(i as int) =~= ls);
    out
}

/// `xs` with later repeats of an item dropped.
pub open spec fn dedup(xs: Seq<Seq<char>>) -> Seq<Seq<char>>
    decreases xs.len(),
{
    if xs.len() == 0 {
        seq![]
    } else {
        let d = dedup(xs.drop_last());
        if d.contains(xs.last()) {
            d
        } else {
            d.push(xs.last())
        }
    }
}

/// `xs` restricted to the items that start with `prefix`.
pub open spec fn with_prefix(xs: Seq<Seq<char>>, prefix: Seq<char>) -> Seq<Seq<char>>
    decreases xs.len(),
{
    if xs.len() == 0 {
        seq![]
    } else {
        let r = with_prefix(xs.drop_last(), prefix);
        if has_prefix(xs.last(), prefix) {
            r.push(xs.last())
        } else {
            r
        }
    }
}

fn contains_text(v: &Vec<String>, x: &String) -> (r: bool)
    ensures
        r == seqs(v@).contains(x@),
{
    let mut k: usize = 0;
    while k < v.len()
        invariant
            k <= v@.len(),
            forall|j: int| 0 <= j < k ==> seqs(v@)[j] != x@,
        decreases v@.len() - k,
    {
        if v[k] == *x {
            assert(seqs(v@)[k as int] == x@);
            return true;
        }
        k += 1;
    }
    false
}

/// Keeps the items of `xs` that start with `prefix`, dropping repeats.
pub fn distinct_with_prefix(xs: &Vec<String>, prefix: &str) -> (r: Vec<String>)
    ensures
        seqs(r@) == dedup(with_prefix(seqs(xs@), prefix@)),
{
    let pc = chars_of(prefix);
    let ghost src = seqs(xs@);
    let mut kept: Vec<String> = Vec::new();
    let mut out: Vec<String> = Vec::new();
    let mut i: usize = 0;
    assert(src.take(0) =~= seq![]);
    while i < xs.len()
        invariant
            pc@ == prefix@,
            src == seqs(xs@),
            i <= xs@.len(),
            seqs(kept@) == with_prefix(src.take(i as int), prefix@),
            seqs(out@) == dedup(seqs(kept@)),
        decreases xs@.len() - i,
    {
        assert(src.take(i + 1).drop_last() =~= src.take(i as int));
        assert(src.take(i + 1).last() == xs@[i as int]@);
        let x = &xs[i];
        let xc = chars_of(x.as_str());
        if span_has_prefix(&xc, 0, xc.len(), &pc) {
            assert(xc@.subrange(0, xc@.len() as int) =~= x@);
            let ghost kb = kept@;
            kept.push(x.clone());
            assert(seqs(kept@) =~= seqs(kb).push(x@));
            assert(seqs(kept@).drop_last() =~= seqs(kb));
            let ghost ob = out@;
            if !contains_text(&out, x) {
                out.push(x.clone());
                assert(seqs(out@) =~= seqs(ob).push(x@));
            }
        } else {
            assert(xc@.subrange(0, xc@.len() as int) =~= x@);
        }
        i += 1;
    }
    assert(src.take(i as int) =~= src);
    out
}

/// Worktree names offered for `cd` and `rm`: `@`, the branches of the
/// other worktrees, and, when `with_relative`, their paths below the common
/// root; only those starting with `prefix`, each once.
pub fn complete_worktrees(porcelain: &str, prefix: &str, with_relative: bool) -> (r: Vec<String>)
    ensures
        exists|all: Seq<Seq<char>>|
            all.len() > 0 && all[0] == "@"@ && #[trigger] seqs(r@) == dedup(with_prefix(all, prefix@)),
{
    let mut all: Vec<String> = Vec::new();
    all.push(String::from_str("@"));
    let branches = parse_worktree_list(porcelain);
    let mut i: usize = 0;
    while i < branches.len()
        invariant
            all@.len() == i + 1,
            all@[0]@ == "@"@,
            i <= branches@.len(),
        decreases branches@.len() - i,
    {
        all.push(branches[i].clone());
        i += 1;
    }
    if with_relative {
        let entries = parse_worktree_entries(porcelain, None);
        let mut linked: Vec<String> = Vec::new();
        let mut k: usize = 1;
        while k < entries.len()
            invariant
                1 <= k,
            decreases entries@.len() - k,
        {
            linked.push(entries[k].path.clone());
            k += 1;
        }
        match calculate_worktree_root_from_paths(&linked) {
            Some(root) => {
                let mut j: usize = 0;
                while j < linked.len()
                    invariant
                        all@.len() > 0,
                        all@[0]@ == "@"@,
                    decreases linked@.len() - j,
                {
                    match calculate_relative_path(linked[j].as_str(), root.as_str()) {
                        Some(rel) => {
                            all.push(rel);
                        },
                        None => {},
                    }
                    j += 1;
                }
            },
            None => {},
        }
    }
    let r = distinct_with_prefix(&all, prefix);
    assert(seqs(all@)[0] == "@"@);
    r
}

} // verus!
