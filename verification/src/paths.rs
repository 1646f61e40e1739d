use vstd::prelude::*;
use crate::split::{split_on, split_chars, replace_char, replace_char_exec};
use crate::strs::{chars_of, copy_chars, string_from_chars};
use crate::text::join;

verus! {

/// An absolute path written plainly: it starts with `/`, does not end with `/`
/// (unless it is `/`), and has no empty or `.` segment.
pub open spec fn is_clean_abs(p: Seq<char>) -> bool {
    &&& p.len() >= 1
    &&& p[0] == '/'
    &&& (p.len() == 1 || {
        let segs = split_on(p.skip(1), '/');
        forall|i: int| 0 <= i < segs.len() ==> segs[i].len() > 0 && segs[i] != "."@
    })
}

/// The components of a clean absolute path: the root `/`, then each segment.
pub open spec fn components(p: Seq<char>) -> Seq<Seq<char>> {
    if p.len() <= 1 {
        seq!["/"@]
    } else {
        seq!["/"@] + split_on(p.skip(1), '/')
    }
}

/// `pre` is a leading run of components of `c`.
pub open spec fn comps_prefix(pre: Seq<Seq<char>>, c: Seq<Seq<char>>) -> bool {
    pre.len() <= c.len() && c.take(pre.len() as int) == pre
}

/// The components of `path` after `root`, joined by `/` (`Path::strip_prefix`),
/// or `path` unchanged when `root` is not a prefix of it; `.` when nothing is left.
pub open spec fn relative_spec(root: Seq<char>, path: Seq<char>) -> Seq<char> {
    let rc = components(root);
    let pc = components(path);
    let v = if comps_prefix(rc, pc) {
        join(pc.skip(rc.len() as int), "/"@)
    } else {
        path
    };
    if v.len() == 0 {
        "."@
    } else {
        v
    }
}

fn components_exec(p: &Vec<char>) -> (r: Vec<Vec<char>>)
    requires
        p.len() >= 1,
    ensures
        r@.map_values(|x: Vec<char>| x@) == components(p@),
{
    let mut r: Vec<Vec<char>> = Vec::new();
    r.push(vec!['/']);
    if p.len() <= 1 {
        assert(r@.map_values(|x: Vec<char>| x@) =~= seq!["/"@]) by {
            reveal_strlit("/");
            assert(r@[0]@ =~= "/"@);
        }
        return r;
    }
    let mut rest: Vec<char> = Vec::new();
    let mut i: usize = 1;
    while i < p.len()
        invariant
            1 <= i <= p.len(),
            rest@ == p@.subrange(1, i as int),
        decreases p.len() - i,
    {
        rest.push(p[i]);
        assert(rest@ =~= p@.subrange(1, i + 1));
        i = i + 1;
    }
    assert(rest@ =~= p@.skip(1));
    let segs = split_chars(&rest, '/');
    let mut k: usize = 0;
    let ghost first = r@;
    assert(first.map_values(|x: Vec<char>| x@) =~= seq!["/"@]) by {
        reveal_strlit("/");
        assert(first[0]@ =~= "/"@);
    }
    while k < segs.len()
        invariant
            k <= segs.len(),
            r.len() == k + 1,
            r@.map_values(|x: Vec<char>| x@) == seq!["/"@] + segs@.take(k as int).map_values(
                |x: Vec<char>| x@,
            ),
        decreases segs.len() - k,
    {
        let ghost prev = r@;
        r.push(copy_chars(&segs[k]));
        assert(segs@.take(k + 1) =~= segs@.take(k as int).push(segs@[k as int]));
        assert(r@.map_values(|x: Vec<char>| x@) =~= prev.map_values(|x: Vec<char>| x@).push(segs@[k as int]@));
        assert(segs@.take(k + 1).map_values(|x: Vec<char>| x@) =~= segs@.take(k as int).map_values(|x: Vec<char>| x@).push(segs@[k as int]@));
        assert(r@.map_values(|x: Vec<char>| x@) =~= seq!["/"@] + segs@.take(k + 1).map_values(
            |x: Vec<char>| x@,
        ));
        k = k + 1;
    }
    assert(segs@.take(segs.len() as int) =~= segs@);
    r
}

fn chars_eq(a: &Vec<char>, b: &Vec<char>) -> (r: bool)
    ensures
        r == (a@ == b@),
{
    if a.len() != b.len() {
        return false;
    }
    let mut i: usize = 0;
    while i < a.len()
        invariant
            a.len() == b.len(),
            i <= a.len(),
            forall|j: int| 0 <= j < i ==> a@[j] == b@[j],
        decreases a.len() - i,
    {
        if a[i] != b[i] {
            return false;
        }
        i = i + 1;
    }
    assert(a@ =~= b@);
    true
}

fn comps_prefix_exec(pre: &Vec<Vec<char>>, c: &Vec<Vec<char>>) -> (r: bool)
    ensures
        r == comps_prefix(pre@.map_values(|x: Vec<char>| x@), c@.map_values(|x: Vec<char>| x@)),
{
    let ghost pv = pre@.map_values(|x: Vec<char>| x@);
    let ghost cv = c@.map_values(|x: Vec<char>| x@);
    if pre.len() > c.len() {
        return false;
    }
    let mut i: usize = 0;
    while i < pre.len()
        invariant
            pre.len() <= c.len(),
            i <= pre.len(),
            pv == pre@.map_values(|x: Vec<char>| x@),
            cv == c@.map_values(|x: Vec<char>| x@),
            forall|j: int| 0 <= j < i ==> pv[j] == cv[j],
        decreases pre.len() - i,
    {
        if !chars_eq(&pre[i], &c[i]) {
            assert(cv.take(pv.len() as int)[i as int] != pv[i as int]);
            return false;
        }
        i = i + 1;
    }
    assert(cv.take(pv.len() as int) =~= pv);
    true
}

fn join_comps(parts: &Vec<Vec<char>>, from: usize, sep: char) -> (r: Vec<char>)
    requires
        from <= parts.len(),
    ensures
        r@ == join(parts@.map_values(|x: Vec<char>| x@).skip(from as int), seq![sep]),
{
    let ghost pv = parts@.map_values(|x: Vec<char>| x@).skip(from as int);
    let mut r: Vec<char> = Vec::new();
    let mut i: usize = from;
    while i < parts.len()
        invariant
            from <= i <= parts.len(),
            pv == parts@.map_values(|x: Vec<char>| x@).skip(from as int),
            r@ == join(pv.take(i - from), seq![sep]),
        decreases parts.len() - i,
    {
        assert(pv.take(i - from + 1).drop_last() =~= pv.take(i - from));
        assert(pv[i - from] == parts@[i as int]@);
        if i > from {
            r.push(sep);
        }
        let p = &parts[i];
        let mut j: usize = 0;
        let ghost base = r@;
        while j < p.len()
            invariant
                j <= p.len(),
                r@ == base + p@.take(j as int),
            decreases p.len() - j,
        {
            r.push(p[j]);
            assert(r@ =~= base + p@.take(j + 1));
            j = j + 1;
        }
        assert(p@.take(p.len() as int) =~= p@);
        proof {
            if i == from {
                assert(pv.take(1) =~= seq![pv[0]]);
                assert(r@ =~= pv[0]);
            }
        }
        i = i + 1;
    }
    assert(pv.take(parts.len() - from) =~= pv);
    r
}

/// `path` relative to `root` (see [`relative_spec`]).
pub fn relative_path(root: &str, path: &str) -> (r: String)
    requires
        root@.len() >= 1,
        path@.len() >= 1,
    ensures
        r@ == relative_spec(root@, path@),
{
    let rv = chars_of(root);
    let pv = chars_of(path);
    let rc = components_exec(&rv);
    let pc = components_exec(&pv);
    let v = if comps_prefix_exec(&rc, &pc) {
        join_comps(&pc, rc.len(), '/')
    } else {
        pv
    };
    proof {
        reveal_strlit("/");
        assert(seq!['/'] =~= "/"@);
    }
    if v.len() == 0 {
        String::from_str(".")
    } else {
        string_from_chars(&v)
    }
}

// ---------------------------------------------------------------------------
// Module names
// ---------------------------------------------------------------------------

/// `s` with every trailing `.rs` removed (`trim_end_matches(".rs")`).
pub open spec fn trim_rs(s: Seq<char>) -> Seq<char>
    decreases s.len(),
{
    if s.len() >= 3 && s[s.len() - 3] == '.' && s[s.len() - 2] == 'r' && s[s.len() - 1] == 's' {
        trim_rs(s.take(s.len() - 3))
    } else {
        s
    }
}

/// Path components that do not show in a module path.
pub open spec fn is_skipped_component(c: Seq<char>) -> bool {
    c == "src"@ || c == "lib.rs"@ || c == "main.rs"@ || c == "mod.rs"@
}

/// Module-path parts for components `cs`, skipping `src`, `lib.rs`, `main.rs`
/// and `mod.rs` and trimming `.rs`.
pub open spec fn module_parts(cs: Seq<Seq<char>>) -> Seq<Seq<char>>
    decreases cs.len(),
{
    if cs.len() == 0 {
        Seq::empty()
    } else {
        let prev = module_parts(cs.drop_last());
        if is_skipped_component(cs.last()) {
            prev
        } else {
            prev.push(trim_rs(cs.last()))
        }
    }
}

/// The module path of `file` in crate `crate_name` whose target root file is
/// `target_root`: the crate name (with `-` as `_`), then the components of
/// `file` below the target root's directory, joined by `::`.
pub open spec fn module_name_spec(crate_name: Seq<char>, target_root: Seq<char>, file: Seq<char>) -> Seq<char> {
    let tc = components(target_root);
    let root = if tc.len() > 1 {
        tc.drop_last()
    } else {
        tc
    };
    let fc = components(file);
    let rel = if comps_prefix(root, fc) {
        fc.skip(root.len() as int)
    } else {
        fc
    };
    join(seq![replace_char(crate_name, '-', '_')] + module_parts(rel), "::"@)
}

pub fn trim_rs_exec(s: &Vec<char>) -> (r: Vec<char>)
    ensures
        r@ == trim_rs(s@),
{
    let mut n = s.len();
    assert(s@.take(n as int) =~= s@);
    while n >= 3 && s[n - 3] == '.' && s[n - 2] == 'r' && s[n - 1] == 's'
        invariant
            n <= s.len(),
            trim_rs(s@) == trim_rs(s@.take(n as int)),
        decreases n,
    {
        proof {
            let t = s@.take(n as int);
            assert(t.take(t.len() - 3) =~= s@.take(n - 3));
        }
        n = n - 3;
    }
    let mut r: Vec<char> = Vec::new();
    let mut i: usize = 0;
    while i < n
        invariant
            n <= s.len(),
            i <= n,
            r@ == s@.take(i as int),
        decreases n - i,
    {
        r.push(s[i]);
        assert(r@ =~= s@.take(i + 1));
        i = i + 1;
    }
    assert(s@.take(s.len() as int) =~= s@);
    r
}

fn is_skipped_exec(c: &Vec<char>) -> (b: bool)
    ensures
        b == is_skipped_component(c@),
{
    let src = chars_of("src");
    let lib = chars_of("lib.rs");
    let main = chars_of("main.rs");
    let md = chars_of("mod.rs");
    chars_eq(c, &src) || chars_eq(c, &lib) || chars_eq(c, &main) || chars_eq(c, &md)
}

/// The module path of a source file (see [`module_name_spec`]).
pub fn module_name(crate_name: &str, target_root: &str, file: &str) -> (r: String)
    requires
        target_root@.len() >= 1,
        file@.len() >= 1,
    ensures
        r@ == module_name_spec(crate_name@, target_root@, file@),
{
    let tc = components_exec(&chars_of(target_root));
    let mut root = tc;
    if root.len() > 1 {
        root.pop();
    }
    let fc = components_exec(&chars_of(file));
    let ghost rootv = root@.map_values(|x: Vec<char>| x@);
    let ghost fcv = fc@.map_values(|x: Vec<char>| x@);
    proof {
        let tcv = components(target_root@);
        if tcv.len() > 1 {
            assert(rootv =~= tcv.drop_last());
        }
    }
    let start: usize = if comps_prefix_exec(&root, &fc) {
        root.len()
    } else {
        0
    };
    let ghost rel = fcv.skip(start as int);
    proof {
        assert(fcv.skip(0) =~= fcv);
    }
    let mut parts: Vec<Vec<char>> = Vec::new();
    parts.push(replace_char_exec(&chars_of(crate_name), '-', '_'));
    let mut i: usize = start;
    while i < fc.len()
        invariant
            start <= i <= fc.len(),
            fcv == fc@.map_values(|x: Vec<char>| x@),
            rel == fcv.skip(start as int),
            parts@.map_values(|x: Vec<char>| x@) == seq![replace_char(crate_name@, '-', '_')]
                + module_parts(rel.take(i - start)),
        decreases fc.len() - i,
    {
        assert(rel.take(i - start + 1).drop_last() =~= rel.take(i - start));
        assert(rel.take(i - start + 1).last() == fc@[i as int]@);
        if !is_skipped_exec(&fc[i]) {
            let ghost prev = parts@;
            parts.push(trim_rs_exec(&fc[i]));
            assert(parts@.map_values(|x: Vec<char>| x@) =~= prev.map_values(|x: Vec<char>| x@).push(
                trim_rs(fc@[i as int]@),
            ));
        }
        i = i + 1;
    }
    assert(rel.take(fc.len() - start) =~= rel);
    let mut out = String::new();
    let mut k: usize = 0;
    let ghost pv = parts@.map_values(|x: Vec<char>| x@);
    while k < parts.len()
        invariant
            k <= parts.len(),
            pv == parts@.map_values(|x: Vec<char>| x@),
            out@ == join(pv.take(k as int), "::"@),
        decreases parts.len() - k,
    {
        assert(pv.take(k + 1).drop_last() =~= pv.take(k as int));
        if k > 0 {
            out.append("::");
        }
        let piece = string_from_chars(&parts[k]);
        out.append(piece.as_str());
        proof {
            if k == 0 {
                assert(pv.take(1) =~= seq![pv[0]]);
                assert(out@ =~= pv[0]);
            }
        }
        k = k + 1;
    }
    assert(pv.take(parts.len() as int) =~= pv);
    out
}

} // verus!
