use vstd::prelude::*;
use crate::strs::{chars_of, contains_seq, contains_chars};

verus! {

/// Position of the first `'\n'` at or after `k`, or `s.len()` when there is none.
pub open spec fn newline_from(s: Seq<char>, k: int) -> int
    decreases s.len() - k,
{
    if k >= s.len() {
        s.len() as int
    } else if s[k] == '\n' {
        k
    } else {
        newline_from(s, k + 1)
    }
}

/// `line` without one trailing `'\r'`.
pub open spec fn strip_cr(line: Seq<char>) -> Seq<char> {
    if line.len() > 0 && line.last() == '\r' {
        line.drop_last()
    } else {
        line
    }
}

/// The lines of `s` as `str::lines` yields them: split after each `'\n'`, the
/// `'\n'` and a `'\r'` just before it removed, no empty line after a final `'\n'`.
pub open spec fn lines_of(s: Seq<char>) -> Seq<Seq<char>>
    decreases s.len(),
{
    if s.len() == 0 {
        Seq::empty()
    } else {
        let i = newline_from(s, 0);
        proof {
            lemma_newline_from_bounds(s, 0);
        }
        if i >= s.len() {
            seq![s]
        } else {
            seq![strip_cr(s.take(i))] + lines_of(s.skip(i + 1))
        }
    }
}

pub proof fn lemma_newline_from_bounds(s: Seq<char>, k: int)
    requires
        0 <= k <= s.len(),
    ensures
        k <= newline_from(s, k) <= s.len(),
        newline_from(s, k) < s.len() ==> s[newline_from(s, k)] == '\n',
        forall|j: int| k <= j < newline_from(s, k) ==> s[j] != '\n',
    decreases s.len() - k,
{
    if k < s.len() && s[k] != '\n' {
        lemma_newline_from_bounds(s, k + 1);
    }
}

proof fn lemma_newline_first(s: Seq<char>, k: int, i: int)
    requires
        0 <= k <= i <= s.len(),
        forall|j: int| k <= j < i ==> s[j] != '\n',
        i == s.len() || s[i] == '\n',
    ensures
        newline_from(s, k) == i,
    decreases i - k,
{
    if k < i {
        lemma_newline_first(s, k + 1, i);
    }
}

proof fn lemma_newline_shift(s: Seq<char>, start: int, i: int)
    requires
        0 <= start <= i <= s.len(),
        forall|j: int| start <= j < i ==> s[j] != '\n',
        i == s.len() || s[i] == '\n',
    ensures
        newline_from(s.skip(start), 0) == i - start,
{
    let t = s.skip(start);
    assert forall|j: int| 0 <= j < i - start implies t[j] != '\n' by {
        assert(t[j] == s[start + j]);
    }
    if i < s.len() {
        assert(t[i - start] == s[i]);
    }
    lemma_newline_first(t, 0, i - start);
}

fn strip_cr_exec(line: Vec<char>) -> (r: Vec<char>)
    ensures
        r@ == strip_cr(line@),
{
    let mut line = line;
    if line.len() > 0 && line[line.len() - 1] == '\r' {
        line.pop();
    }
    line
}

/// The lines of `s` (see [`lines_of`]), each as characters.
pub fn split_lines(s: &str) -> (r: Vec<Vec<char>>)
    ensures
        r@.map_values(|l: Vec<char>| l@) == lines_of(s@),
{
    let cs = chars_of(s);
    let n = cs.len();
    let mut r: Vec<Vec<char>> = Vec::new();
    let mut cur: Vec<char> = Vec::new();
    let mut start: usize = 0;
    let mut k: usize = 0;
    assert(cs@.skip(0) =~= cs@);
    while k < n
        invariant
            n == cs.len(),
            cs@ == s@,
            start <= k <= n,
            cur@ == cs@.subrange(start as int, k as int),
            forall|j: int| start <= j < k ==> cs@[j] != '\n',
            lines_of(s@) == r@.map_values(|l: Vec<char>| l@) + lines_of(cs@.skip(start as int)),
        decreases n - k,
    {
        if cs[k] == '\n' {
            proof {
                let t = cs@.skip(start as int);
                lemma_newline_shift(cs@, start as int, k as int);
                assert(t.take(k - start) =~= cur@);
                assert(t.skip(k - start + 1) =~= cs@.skip(k + 1));
                assert(t.len() > 0);
            }
            let line = strip_cr_exec(cur);
            let ghost prev = r@;
            r.push(line);
            proof {
                assert(r@.map_values(|l: Vec<char>| l@) =~= prev.map_values(|l: Vec<char>| l@).push(
                    strip_cr(cs@.subrange(start as int, k as int)),
                ));
            }
            cur = Vec::new();
            start = k + 1;
            assert(cur@ =~= cs@.subrange(start as int, start as int));
        } else {
            cur.push(cs[k]);
            assert(cur@ =~= cs@.subrange(start as int, k + 1));
        }
        k = k + 1;
    }
    if start < n {
        proof {
            let t = cs@.skip(start as int);
            lemma_newline_shift(cs@, start as int, n as int);
            assert(t =~= cur@);
        }
        let ghost prev = r@;
        r.push(cur);
        assert(r@.map_values(|l: Vec<char>| l@) =~= prev.map_values(|l: Vec<char>| l@).push(
            cs@.skip(start as int),
        ));
    } else {
        assert(cs@.skip(start as int).len() == 0);
        assert(r@.map_values(|l: Vec<char>| l@) + lines_of(cs@.skip(start as int)) =~= r@.map_values(
            |l: Vec<char>| l@,
        ));
    }
    r
}

/// The lines of `s` hold no more characters than `s`.
pub proof fn lemma_lines_total(s: Seq<char>)
    ensures
        crate::helpers::total_len(lines_of(s)) <= s.len(),
    decreases s.len(),
{
    if s.len() > 0 {
        lemma_newline_from_bounds(s, 0);
        let i = newline_from(s, 0);
        if i < s.len() {
            lemma_lines_total(s.skip(i + 1));
            lemma_total_concat(seq![strip_cr(s.take(i))], lines_of(s.skip(i + 1)));
            let one = seq![strip_cr(s.take(i))];
            assert(one.drop_last() =~= Seq::<Seq<char>>::empty());
            assert(one.last() == strip_cr(s.take(i)));
            assert(crate::helpers::total_len(Seq::<Seq<char>>::empty()) == 0);
            assert(crate::helpers::total_len(one) == strip_cr(s.take(i)).len());
            assert(lines_of(s) == one + lines_of(s.skip(i + 1)));
        } else {
            assert(seq![s].drop_last() =~= Seq::<Seq<char>>::empty());
            assert(crate::helpers::total_len(Seq::<Seq<char>>::empty()) == 0);
            assert(lines_of(s) == seq![s]);
        }
    }
}

proof fn lemma_total_concat(a: Seq<Seq<char>>, b: Seq<Seq<char>>)
    ensures
        crate::helpers::total_len(a + b) == crate::helpers::total_len(a) + crate::helpers::total_len(b),
    decreases b.len(),
{
    if b.len() == 0 {
        assert(a + b =~= a);
    } else {
        lemma_total_concat(a, b.drop_last());
        assert((a + b).drop_last() =~= a + b.drop_last());
    }
}

// ---------------------------------------------------------------------------
// Finding lines
// ---------------------------------------------------------------------------

/// Index of the first line at or after `from` that contains `needle`, if any.
pub open spec fn first_line_with(lines: Seq<Seq<char>>, needle: Seq<char>, from: int) -> Option<int>
    decreases lines.len() - from,
{
    if from >= lines.len() {
        None
    } else if contains_seq(lines[from], needle) {
        Some(from)
    } else {
        first_line_with(lines, needle, from + 1)
    }
}

fn first_line_with_exec(lines: &Vec<Vec<char>>, needle: &Vec<char>, from: usize) -> (r: Option<usize>)
    ensures
        r matches Some(i) ==> first_line_with(lines@.map_values(|l: Vec<char>| l@), needle@, from as int)
            == Some(i as int),
        r is None ==> first_line_with(lines@.map_values(|l: Vec<char>| l@), needle@, from as int) is None,
{
    let ghost ls = lines@.map_values(|l: Vec<char>| l@);
    let mut i = from;
    while i < lines.len()
        invariant
            from <= i,
            ls == lines@.map_values(|l: Vec<char>| l@),
            first_line_with(ls, needle@, from as int) == first_line_with(ls, needle@, i as int),
        decreases lines.len() - i,
    {
        if contains_chars(&lines[i], needle) {
            return Some(i);
        }
        i = i + 1;
    }
    None
}

/// 1-based number of the first line of `source` containing `needle`, or 1.
pub open spec fn find_line_spec(source: Seq<char>, needle: Seq<char>) -> nat {
    match first_line_with(lines_of(source), needle, 0) {
        Some(i) => (i + 1) as nat,
        None => 1,
    }
}

/// 1-based number of the first line of `source` that contains `needle`; 1 when
/// no line does.
pub fn find_line(source: &str, needle: &str) -> (r: usize)
    ensures
        r == find_line_spec(source@, needle@),
{
    let lines = split_lines(source);
    let nd = chars_of(needle);
    match first_line_with_exec(&lines, &nd, 0) {
        Some(i) => {
            proof {
                lemma_first_line_bound(lines@.map_values(|l: Vec<char>| l@), nd@, 0);
                assert(lines@.map_values(|l: Vec<char>| l@).len() == lines.len());
            }
            i + 1
        },
        None => 1,
    }
}

proof fn lemma_first_line_bound(lines: Seq<Seq<char>>, needle: Seq<char>, from: int)
    requires
        from >= 0,
    ensures
        first_line_with(lines, needle, from) matches Some(i) ==> from <= i < lines.len(),
    decreases lines.len() - from,
{
    if from < lines.len() && !contains_seq(lines[from], needle) {
        lemma_first_line_bound(lines, needle, from + 1);
    }
}

/// 1-based number of the first line at or after line `start_line` (1-based;
/// 0 counts as 1) that contains `needle`; `start_line` when none does.
pub open spec fn find_line_after_spec(source: Seq<char>, needle: Seq<char>, start_line: nat) -> nat {
    let from = if start_line == 0 {
        0
    } else {
        start_line - 1
    };
    match first_line_with(lines_of(source), needle, from) {
        Some(i) => (i + 1) as nat,
        None => start_line,
    }
}

/// The line number where `needle` next occurs at or after `start_line`.
pub fn find_line_after(source: &str, needle: &str, start_line: usize) -> (r: usize)
    ensures
        r == find_line_after_spec(source@, needle@, start_line as nat),
{
    let lines = split_lines(source);
    let nd = chars_of(needle);
    let from = if start_line == 0 {
        0
    } else {
        start_line - 1
    };
    match first_line_with_exec(&lines, &nd, from) {
        Some(i) => {
            proof {
                lemma_first_line_bound(lines@.map_values(|l: Vec<char>| l@), nd@, from as int);
                assert(lines@.map_values(|l: Vec<char>| l@).len() == lines.len());
            }
            i + 1
        },
        None => start_line,
    }
}

} // verus!
