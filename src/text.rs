//! Character-level text helpers shared by the parsers.
use vstd::prelude::*;

verus! {

/// Copies the characters of `s` into a vector.
pub fn chars_of(s: &str) -> (r: Vec<char>)
    ensures
        r@ == s@,
{
    let n = s.unicode_len();
    let mut out: Vec<char> = Vec::with_capacity(n);
    let mut i: usize = 0;
    while i < n
        invariant
            n == s@.len(),
            i <= n,
            out@ == s@.take(i as int),
        decreases n - i,
    {
        out.push(s.get_char(i));
        i += 1;
        assert(out@ =~= s@.take(i as int));
    }
    assert(out@ =~= s@);
    out
}


/// Index of the first `c` in `s`, or `s.len()` when there is none.
pub open spec fn first_of(s: Seq<char>, c: char) -> nat
    decreases s.len(),
{
    if s.len() == 0 {
        0
    } else if s[0] == c {
        0
    } else {
        1 + first_of(s.skip(1), c)
    }
}

pub proof fn lemma_first_of_bound(s: Seq<char>, c: char)
    ensures
        first_of(s, c) <= s.len(),
    decreases s.len(),
{
    if s.len() > 0 && s[0] != c {
        lemma_first_of_bound(s.skip(1), c);
    }
}

/// The pieces of `s` between occurrences of `c`, as `str::split` yields them.
pub open spec fn split(s: Seq<char>, c: char) -> Seq<Seq<char>>
    decreases s.len(),
{
    let k = first_of(s, c);
    if k < s.len() {
        seq![s.take(k as int)] + split(s.skip(k + 1 as int), c)
    } else {
        seq![s]
    }
}

/// A line without its `'\r'`, when that ended a `"\r\n"` terminator.
pub open spec fn strip_cr(l: Seq<char>) -> Seq<char> {
    if l.len() > 0 && l.last() == '\r' {
        l.drop_last()
    } else {
        l
    }
}

/// The lines of `s` as `str::lines` yields them: split at `"\n"` or `"\r\n"`,
/// the final terminator optional.
pub open spec fn lines(s: Seq<char>) -> Seq<Seq<char>>
    decreases s.len(),
{
    if s.len() == 0 {
        seq![]
    } else {
        let k = first_of(s, '\n');
        if k < s.len() {
            seq![strip_cr(s.take(k as int))] + lines(s.skip(k + 1 as int))
        } else {
            seq![s]
        }
    }
}

/// `first_of` is the index of the first `c`.
pub proof fn lemma_first_of(s: Seq<char>, c: char, j: int)
    requires
        0 <= j <= s.len(),
        forall|t: int| 0 <= t < j ==> s[t] != c,
        j == s.len() || s[j] == c,
    ensures
        first_of(s, c) == j,
    decreases j,
{
    if j > 0 {
        lemma_first_of(s.skip(1), c, j - 1);
    }
}

/// The span `sp` of `cs` ends by `bound` and holds `line`.
pub open spec fn span_matches(cs: Seq<char>, sp: (usize, usize), line: Seq<char>, bound: int) -> bool {
    &&& sp.0 <= sp.1 <= bound
    &&& cs.subrange(sp.0 as int, sp.1 as int) == line
}

/// Each span of `spans` ends by `bound` and holds the matching line of `done`.
pub open spec fn spans_match(cs: Seq<char>, spans: Seq<(usize, usize)>, done: Seq<Seq<char>>, bound: int) -> bool {
    forall|i: int| 0 <= i < spans.len() ==> span_matches(cs, #[trigger] spans[i], done[i], bound)
}

/// Start and end (exclusive) of each line of `cs`, in the sense of `lines`.
pub fn line_spans(cs: &Vec<char>) -> (r: Vec<(usize, usize)>)
    ensures
        r@.len() == lines(cs@).len(),
        spans_match(cs@, r@, lines(cs@), cs@.len() as int),
{
    let n = cs.len();
    let mut out: Vec<(usize, usize)> = Vec::new();
    let ghost mut done: Seq<Seq<char>> = seq![];
    let mut start: usize = 0;
    assert(cs@.skip(0) =~= cs@);
    while start < n
        invariant
            n == cs@.len(),
            start <= n,
            lines(cs@) == done + lines(cs@.skip(start as int)),
            done.len() == out@.len(),
            spans_match(cs@, out@, done, start as int),
        decreases n - start,
    {
        let ghost rest = cs@.skip(start as int);
        let mut j: usize = start;
        while j < n && cs[j] != '\n'
            invariant
                start <= j <= n,
                n == cs@.len(),
                rest == cs@.skip(start as int),
                forall|t: int| start <= t < j ==> cs@[t] != '\n',
                lines(cs@) == done + lines(cs@.skip(start as int)),
                done.len() == out@.len(),
                spans_match(cs@, out@, done, start as int),
            decreases n - j,
        {
            j += 1;
        }
        proof {
            lemma_first_of(rest, '\n', j - start);
        }
        if j < n {
            let mut end: usize = j;
            if j > start && cs[j - 1] == '\r' {
                end = j - 1;
            }
            proof {
                assert(rest.take(j - start) =~= cs@.subrange(start as int, j as int));
                assert(rest.skip(j - start + 1) =~= cs@.skip(j + 1));
                assert(strip_cr(rest.take(j - start)) =~= cs@.subrange(start as int, end as int));
                assert(lines(rest) == seq![strip_cr(rest.take(j - start))] + lines(rest.skip(j - start + 1)));
                done = done.push(cs@.subrange(start as int, end as int));
                assert(lines(cs@) =~= done + lines(cs@.skip(j + 1)));
            }
            let ghost prev = out@;
            out.push((start, end));
            proof {
                assert forall|i: int| 0 <= i < out@.len() implies span_matches(cs@, #[trigger] out@[i], done[i], j + 1) by {
                    if i < prev.len() {
                        assert(out@[i] == prev[i]);
                        assert(span_matches(cs@, prev[i], done[i], start as int));
                    } else {
                        assert(i == prev.len());
                    }
                }
            }
            start = j + 1;
        } else {
            proof {
                assert(rest =~= cs@.subrange(start as int, n as int));
                assert(cs@.skip(n as int).len() == 0);
                assert(lines(rest) == seq![rest]);
                done = done.push(rest);
                assert(lines(cs@.skip(n as int)) =~= seq![]);
                assert(lines(cs@) =~= done + lines(cs@.skip(n as int)));
            }
            let ghost prev = out@;
            out.push((start, n));
            proof {
                assert forall|i: int| 0 <= i < out@.len() implies span_matches(cs@, #[trigger] out@[i], done[i], n as int) by {
                    if i < prev.len() {
                        assert(out@[i] == prev[i]);
                        assert(span_matches(cs@, prev[i], done[i], start as int));
                    } else {
                        assert(i == prev.len());
                    }
                }
            }
            start = n;
        }
    }
    proof {
        assert(cs@.skip(n as int).len() == 0);
        assert(lines(cs@.skip(n as int)) =~= seq![]);
        assert(lines(cs@) =~= done);
        assert forall|i: int| 0 <= i < out@.len() implies span_matches(cs@, #[trigger] out@[i], done[i], n as int) by {
            assert(span_matches(cs@, out@[i], done[i], start as int));
        }
    }
    out
}


/// The character sequence held by an optional string.
pub open spec fn opt_seq(o: Option<String>) -> Option<Seq<char>> {
    match o {
        Some(s) => Some(s@),
        None => None,
    }
}

/// A copy of an optional string.
pub fn clone_opt(o: &Option<String>) -> (r: Option<String>)
    ensures
        opt_seq(r) == opt_seq(*o),
{
    match o {
        Some(s) => Some(s.clone()),
        None => None,
    }
}

/// The character sequences of a list of strings.
pub open spec fn seqs(v: Seq<String>) -> Seq<Seq<char>> {
    v.map_values(|s: String| s@)
}

/// A copy of a list of strings.
pub fn copy_strings(v: &Vec<String>) -> (r: Vec<String>)
    ensures
        seqs(r@) == seqs(v@),
{
    let mut out: Vec<String> = Vec::new();
    let mut i: usize = 0;
    while i < v.len()
        invariant
            i <= v@.len(),
            seqs(out@) == seqs(v@).take(i as int),
        decreases v@.len() - i,
    {
        let ghost before = out@;
        out.push(v[i].clone());
        assert(seqs(out@) =~= seqs(v@).take(i + 1)) by {
            assert(seqs(out@) =~= seqs(before).push(v@[i as int]@));
        }
        i += 1;
    }
    assert(seqs(v@).take(i as int) =~= seqs(v@));
    out
}

/// `a` followed by `b`.
pub fn concat_strings(a: &Vec<String>, b: &Vec<String>) -> (r: Vec<String>)
    ensures
        seqs(r@) == seqs(a@) + seqs(b@),
{
    let mut out = copy_strings(a);
    let mut i: usize = 0;
    while i < b.len()
        invariant
            i <= b@.len(),
            seqs(out@) == seqs(a@) + seqs(b@).take(i as int),
        decreases b@.len() - i,
    {
        let ghost before = out@;
        out.push(b[i].clone());
        assert(seqs(out@) =~= seqs(a@) + seqs(b@).take(i + 1)) by {
            assert(seqs(out@) =~= seqs(before).push(b@[i as int]@));
        }
        i += 1;
    }
    assert(seqs(b@).take(i as int) =~= seqs(b@));
    out
}

/// `p` is a prefix of `s`.
pub open spec fn has_prefix(s: Seq<char>, p: Seq<char>) -> bool {
    p.len() <= s.len() && s.take(p.len() as int) == p
}

/// Whether the span `cs[a..b]` starts with `p`.
pub fn span_has_prefix(cs: &Vec<char>, a: usize, b: usize, p: &Vec<char>) -> (r: bool)
    requires
        a <= b <= cs@.len(),
    ensures
        r == has_prefix(cs@.subrange(a as int, b as int), p@),
{
    let ghost line = cs@.subrange(a as int, b as int);
    if p.len() > b - a {
        return false;
    }
    let mut i: usize = 0;
    while i < p.len()
        invariant
            a <= b <= cs@.len(),
            p@.len() <= b - a,
            i <= p@.len(),
            line == cs@.subrange(a as int, b as int),
            forall|t: int| 0 <= t < i ==> line[t] == p@[t],
        decreases p@.len() - i,
    {
        if cs[a + i] != p[i] {
            assert(line.take(p@.len() as int)[i as int] != p@[i as int]);
            return false;
        }
        i += 1;
    }
    assert(line.take(p@.len() as int) =~= p@);
    true
}

/// Whether the span `cs[a..b]` equals `p`.
pub fn span_equals(cs: &Vec<char>, a: usize, b: usize, p: &Vec<char>) -> (r: bool)
    requires
        a <= b <= cs@.len(),
    ensures
        r == (cs@.subrange(a as int, b as int) == p@),
{
    if p.len() != b - a {
        assert(cs@.subrange(a as int, b as int).len() != p@.len());
        return false;
    }
    let r = span_has_prefix(cs, a, b, p);
    proof {
        let line = cs@.subrange(a as int, b as int);
        assert(line.take(p@.len() as int) =~= line);
    }
    r
}

/// The characters `s[a..b]` as an owned string.
pub fn substring(s: &str, a: usize, b: usize) -> (r: String)
    requires
        a <= b <= s@.len(),
    ensures
        r@ == s@.subrange(a as int, b as int),
{
    String::from_str(s.substring_char(a, b))
}


/// Start and end (exclusive) of each piece of `cs` between occurrences of `c`.
pub fn split_spans(cs: &Vec<char>, c: char) -> (r: Vec<(usize, usize)>)
    ensures
        r@.len() == split(cs@, c).len(),
        spans_match(cs@, r@, split(cs@, c), cs@.len() as int),
{
    let n = cs.len();
    let mut out: Vec<(usize, usize)> = Vec::new();
    let ghost mut done: Seq<Seq<char>> = seq![];
    let mut start: usize = 0;
    assert(cs@.skip(0) =~= cs@);
    loop
        invariant
            n == cs@.len(),
            start <= n,
            split(cs@, c) == done + split(cs@.skip(start as int), c),
            done.len() == out@.len(),
            spans_match(cs@, out@, done, start as int),
        decreases n - start,
    {
        let ghost rest = cs@.skip(start as int);
        let mut j: usize = start;
        while j < n && cs[j] != c
            invariant
                start <= j <= n,
                n == cs@.len(),
                rest == cs@.skip(start as int),
                forall|t: int| start <= t < j ==> cs@[t] != c,
                split(cs@, c) == done + split(cs@.skip(start as int), c),
                done.len() == out@.len(),
                spans_match(cs@, out@, done, start as int),
            decreases n - j,
        {
            j += 1;
        }
        proof {
            lemma_first_of(rest, c, j - start);
            assert(rest.take(j - start) =~= cs@.subrange(start as int, j as int));
        }
        let ghost prev = out@;
        out.push((start, j));
        proof {
            done = done.push(cs@.subrange(start as int, j as int));
            assert forall|i: int| 0 <= i < out@.len() implies span_matches(cs@, #[trigger] out@[i], done[i], j as int) by {
                if i < prev.len() {
                    assert(out@[i] == prev[i]);
                    assert(span_matches(cs@, prev[i], done[i], start as int));
                } else {
                    assert(i == prev.len());
                }
            }
        }
        if j == n {
            proof {
                assert(rest =~= cs@.subrange(start as int, n as int));
                assert(split(rest, c) == seq![rest]);
                assert(split(cs@, c) =~= done);
            }
            return out;
        }
        proof {
            assert(rest.skip(j - start + 1) =~= cs@.skip(j + 1));
            assert(split(rest, c) == seq![rest.take(j - start)] + split(rest.skip(j - start + 1), c));
            assert(split(cs@, c) =~= done + split(cs@.skip(j + 1), c));
        }
        start = j + 1;
    }
}

} // verus!
