use vstd::prelude::*;
use crate::lines::{find_line, find_line_spec, lines_of, split_lines};
use crate::model::Location;
use crate::seqs::count_where;
use crate::strs::{char_is_white, chars_of, is_white, owned, push_char, string_from_chars};

verus! {

// ---------------------------------------------------------------------------
// Whitespace
// ---------------------------------------------------------------------------

/// Every character of `l` is whitespace (so `l.trim()` is empty).
pub open spec fn all_white(l: Seq<char>) -> bool {
    forall|i: int| 0 <= i < l.len() ==> is_white(l[i])
}

/// `l` without its leading whitespace (`str::trim_start`).
pub open spec fn trim_start_spec(l: Seq<char>) -> Seq<char>
    decreases l.len(),
{
    if l.len() > 0 && is_white(l[0]) {
        trim_start_spec(l.drop_first())
    } else {
        l
    }
}

/// After trimming leading whitespace, `l` starts with `//`.
pub open spec fn is_comment_line(l: Seq<char>) -> bool {
    let t = trim_start_spec(l);
    t.len() >= 2 && t[0] == '/' && t[1] == '/'
}

pub fn all_white_exec(l: &Vec<char>) -> (b: bool)
    ensures
        b == all_white(l@),
{
    let mut i: usize = 0;
    while i < l.len()
        invariant
            i <= l.len(),
            forall|j: int| 0 <= j < i ==> is_white(l@[j]),
        decreases l.len() - i,
    {
        if !char_is_white(l[i]) {
            return false;
        }
        i = i + 1;
    }
    true
}

fn is_comment_line_exec(l: &Vec<char>) -> (b: bool)
    ensures
        b == is_comment_line(l@),
{
    let mut i: usize = 0;
    assert(l@.skip(0) =~= l@);
    while i < l.len() && char_is_white(l[i])
        invariant
            i <= l.len(),
            trim_start_spec(l@) == trim_start_spec(l@.skip(i as int)),
        decreases l.len() - i,
    {
        assert(l@.skip(i as int).drop_first() =~= l@.skip(i + 1));
        i = i + 1;
    }
    proof {
        if i < l.len() {
            assert(l@.skip(i as int)[0] == l@[i as int]);
        }
    }
    i < l.len() && l.len() - i >= 2 && l[i] == '/' && l[i + 1] == '/'
}

/// `(name, count)` line metrics of a source text, by name: comment lines, all
/// lines, and lines that are not blank.
pub open spec fn file_metrics_spec(source: Seq<char>) -> Seq<(Seq<char>, nat)> {
    let ls = lines_of(source);
    seq![
        ("comment_lines"@, count_where(ls, |l: Seq<char>| is_comment_line(l))),
        ("lines"@, ls.len()),
        ("non_empty_lines"@, count_where(ls, |l: Seq<char>| !all_white(l))),
    ]
}

/// Line counts of a source file.
pub fn file_metrics(source: &str) -> (r: Vec<(String, usize)>)
    ensures
        r@.map_values(|p: (String, usize)| (p.0@, p.1 as nat)) == file_metrics_spec(source@),
{
    let lines = split_lines(source);
    let ghost ls = lines@.map_values(|l: Vec<char>| l@);
    let mut comments: usize = 0;
    let mut non_empty: usize = 0;
    let mut i: usize = 0;
    while i < lines.len()
        invariant
            i <= lines.len(),
            ls == lines@.map_values(|l: Vec<char>| l@),
            comments == count_where(ls.take(i as int), |l: Seq<char>| is_comment_line(l)),
            non_empty == count_where(ls.take(i as int), |l: Seq<char>| !all_white(l)),
            comments <= i,
            non_empty <= i,
        decreases lines.len() - i,
    {
        proof {
            crate::seqs::lemma_count_where_step(ls, |l: Seq<char>| is_comment_line(l), i as int);
            crate::seqs::lemma_count_where_step(ls, |l: Seq<char>| !all_white(l), i as int);
        }
        if is_comment_line_exec(&lines[i]) {
            comments = comments + 1;
        }
        if !all_white_exec(&lines[i]) {
            non_empty = non_empty + 1;
        }
        i = i + 1;
    }
    assert(ls.take(lines.len() as int) =~= ls);
    let r = vec![
        (owned("comment_lines"), comments),
        (owned("lines"), lines.len()),
        (owned("non_empty_lines"), non_empty),
    ];
    assert(r@.map_values(|p: (String, usize)| (p.0@, p.1 as nat)) =~= file_metrics_spec(source@));
    r
}

// ---------------------------------------------------------------------------
// Compacting whitespace
// ---------------------------------------------------------------------------

/// The characters of `s` from `k` on, with each run of whitespace between words
/// replaced by one space and whitespace at either end dropped. `pending` says a
/// space is owed before the next word; `started` says a word was already seen.
pub open spec fn compact_from(s: Seq<char>, k: int, pending: bool, started: bool) -> Seq<char>
    decreases s.len() - k,
{
    if k >= s.len() {
        Seq::empty()
    } else if is_white(s[k]) {
        compact_from(s, k + 1, started, started)
    } else {
        (if pending {
            seq![' ']
        } else {
            Seq::empty()
        }) + seq![s[k]] + compact_from(s, k + 1, false, true)
    }
}

/// The words of `s` joined by single spaces (`split_whitespace` then `join(" ")`).
pub open spec fn compact_spec(s: Seq<char>) -> Seq<char> {
    compact_from(s, 0, false, false)
}

/// Collapses whitespace: the words of `value` joined by single spaces.
pub fn compact(value: String) -> (r: String)
    ensures
        r@ == compact_spec(value@),
{
    let cs = chars_of(value.as_str());
    let mut out: Vec<char> = Vec::new();
    let mut pending = false;
    let mut started = false;
    let mut k: usize = 0;
    while k < cs.len()
        invariant
            k <= cs.len(),
            cs@ == value@,
            out@ + compact_from(cs@, k as int, pending, started) == compact_spec(value@),
            pending ==> started,
        decreases cs.len() - k,
    {
        let c = cs[k];
        if char_is_white(c) {
            pending = started;
        } else {
            let ghost before = out@;
            if pending {
                out.push(' ');
            }
            out.push(c);
            proof {
                let sp = if pending {
                    seq![' ']
                } else {
                    Seq::<char>::empty()
                };
                assert(out@ =~= before + sp + seq![c]);
                assert(before + (sp + seq![c] + compact_from(cs@, k + 1, false, true)) =~= out@
                    + compact_from(cs@, k + 1, false, true));
            }
            pending = false;
            started = true;
        }
        k = k + 1;
    }
    assert(out@ =~= out@ + compact_from(cs@, k as int, pending, started));
    string_from_chars(&out)
}

/// Total number of characters in a list of lines.
pub open spec fn total_len(ls: Seq<Seq<char>>) -> nat
    decreases ls.len(),
{
    if ls.len() == 0 {
        0
    } else {
        total_len(ls.drop_last()) + ls.last().len()
    }
}

proof fn lemma_total_prefix(ls: Seq<Seq<char>>, m: int, n: int)
    requires
        0 <= m <= n <= ls.len(),
    ensures
        total_len(ls.take(m)) <= total_len(ls.take(n)),
    decreases n - m,
{
    if m < n {
        lemma_total_prefix(ls, m, n - 1);
        assert(ls.take(n).drop_last() =~= ls.take(n - 1));
    }
    assert(ls.take(ls.len() as int) =~= ls);
}

// ---------------------------------------------------------------------------
// Locations and item extents
// ---------------------------------------------------------------------------

/// Where `needle` first appears in `source`, within `file`.
pub fn location(file: &str, source: &str, needle: &str) -> (r: Location)
    ensures
        r.file@ == file@,
        r.line == find_line_spec(source@, needle@),
{
    Location { file: owned(file), line: find_line(source, needle) }
}

/// Result of scanning for the closing brace of an item: the scan state after
/// the characters of the lines from `li` (character `ci` on), or the 1-based
/// line where the depth first returns to zero after an opening brace.
pub open spec fn brace_scan(
    lines: Seq<Seq<char>>,
    li: int,
    ci: int,
    depth: int,
    found_open: bool,
) -> Option<nat>
    decreases lines.len() - li, if li < lines.len() {
        lines[li].len() - ci
    } else {
        0
    },
{
    if li >= lines.len() || li < 0 || ci < 0 {
        None
    } else if ci >= lines[li].len() {
        brace_scan(lines, li + 1, 0, depth, found_open)
    } else {
        let c = lines[li][ci];
        if c == '{' {
            brace_scan(lines, li, ci + 1, depth + 1, true)
        } else if c == '}' {
            if found_open && depth - 1 == 0 {
                Some((li + 1) as nat)
            } else {
                brace_scan(lines, li, ci + 1, depth - 1, found_open)
            }
        } else {
            brace_scan(lines, li, ci + 1, depth, found_open)
        }
    }
}

/// The line on which the item starting at `start_line` ends: the first line
/// where the brace depth, counted from that line on, returns to zero after an
/// opening brace; `start_line` when it never does.
pub open spec fn item_end_spec(source: Seq<char>, start_line: nat) -> nat {
    let from = if start_line == 0 {
        0
    } else {
        start_line - 1
    };
    match brace_scan(lines_of(source), from, 0, 0, false) {
        Some(l) => l,
        None => start_line,
    }
}

/// The line where the item that starts at `start_line` closes its braces.
pub fn find_item_end_line(source: &str, start_line: usize) -> (r: usize)
    requires
        source@.len() <= 0x7fff_ffff_ffff_ffff,
    ensures
        r == item_end_spec(source@, start_line as nat),
{
    let lines = split_lines(source);
    let ghost ls = lines@.map_values(|l: Vec<char>| l@);
    let mut li: usize = if start_line == 0 {
        0
    } else {
        start_line - 1
    };
    let mut depth: i64 = 0;
    let mut found_open = false;
    proof {
        crate::lines::lemma_lines_total(source@);
        if li > lines.len() {
        } else {
            lemma_total_prefix(ls, li as int, ls.len() as int);
        }
    }
    while li < lines.len()
        invariant
            ls == lines@.map_values(|l: Vec<char>| l@),
            ls == lines_of(source@),
            total_len(ls) <= 0x7fff_ffff_ffff_ffff,
            -total_len(ls.take(li as int)) <= depth <= total_len(ls.take(li as int)),
            brace_scan(ls, li as int, 0, depth as int, found_open) == brace_scan(
                ls,
                (if start_line == 0 {
                    0
                } else {
                    start_line - 1
                }) as int,
                0,
                0,
                false,
            ),
        decreases lines.len() - li,
    {
        let line = &lines[li];
        proof {
            lemma_total_prefix(ls, li + 1, ls.len() as int);
            assert(ls.take(li + 1).drop_last() =~= ls.take(li as int));
            assert(ls.take(li + 1).last() == ls[li as int]);
            assert(ls.take(ls.len() as int) =~= ls);
            assert(total_len(ls.take(li + 1)) == total_len(ls.take(li as int)) + ls[li as int].len());
        }
        let mut ci: usize = 0;
        while ci < line.len()
            invariant
                ls == lines@.map_values(|l: Vec<char>| l@),
                ls == lines_of(source@),
                li < lines.len(),
                line@ == ls[li as int],
                ci <= line.len(),
                total_len(ls) <= 0x7fff_ffff_ffff_ffff,
                total_len(ls.take(li as int)) + line.len() <= total_len(ls),
                -(total_len(ls.take(li as int)) + ci) <= depth <= total_len(ls.take(li as int)) + ci,
                brace_scan(ls, li as int, ci as int, depth as int, found_open) == brace_scan(
                    ls,
                    (if start_line == 0 {
                        0
                    } else {
                        start_line - 1
                    }) as int,
                    0,
                    0,
                    false,
                ),
            decreases line.len() - ci,
        {
            let c = line[ci];
            let ghost d0 = depth as int;
            let ghost f0 = found_open;
            if c == '{' {
                depth = depth + 1;
                found_open = true;
            } else if c == '}' {
                depth = depth - 1;
                if found_open && depth == 0 {
                    assert(brace_scan(ls, li as int, ci as int, d0, f0) == Some((li + 1) as nat));
                    return li + 1;
                }
            }
            ci = ci + 1;
        }
        li = li + 1;
    }
    start_line
}

} // verus!
