use vstd::prelude::*;
use crate::language::{file_name, file_name_chars, Language};
use crate::normalize::{normalize, normalized};
use crate::snapshot::{entries, paths_of, Capture, SnapshotFile};
use crate::text::{chars_end_with, chars_equal, chars_of, ends_with, has_prefix_at};

verus! {

/// Whether the path `path` lies, at any depth, under a directory named `d`.
pub open spec fn under_dir(path: Seq<char>, d: Seq<char>) -> bool {
    exists|i: int|
        0 <= i && i + d.len() < path.len() && (i == 0 || path[i - 1] == '/')
            && #[trigger] path.subrange(i, i + d.len()) == d && path[i + d.len()] == '/'
}

/// The inclusion rule of each language: which generated files are source
/// worth a snapshot. Python keeps modules, manifests, templates and the
/// type marker; JavaScript keeps modules, type declarations and the package
/// manifest, and nothing under installed dependencies.
pub open spec fn included(language: Language, path: Seq<char>) -> bool {
    let n = file_name(path);
    match language {
        Language::Python => ends_with(n, ".py"@) || ends_with(n, ".toml"@) || ends_with(n, ".in"@)
            || n == "py.typed"@,
        Language::JavaScript => (ends_with(n, ".js"@) || ends_with(n, ".mjs"@) || ends_with(n, ".cjs"@)
            || ends_with(n, ".ts"@) || n == "package.json"@) && !under_dir(path, "node_modules"@),
    }
}

fn is_under_dir(p: &Vec<char>, d: &Vec<char>) -> (r: bool)
    ensures
        r == under_dir(p@, d@),
{
    let mut i: usize = 0;
    while i < p.len()
        invariant
            i <= p@.len(),
            forall|j: int|
                0 <= j < i ==> !(j + d@.len() < p@.len() && (j == 0 || p@[j - 1] == '/')
                    && #[trigger] p@.subrange(j, j + d@.len()) == d@ && p@[j + d@.len()] == '/'),
        decreases p@.len() - i,
    {
        if i == 0 || p[i - 1] == '/' {
            if has_prefix_at(p, i, d) {
                assert(p@.skip(i as int).take(d@.len() as int) =~= p@.subrange(i as int, i + d@.len()));
                if d.len() < p.len() - i && p[i + d.len()] == '/' {
                    return true;
                }
            } else {
                assert(d@.len() <= p@.skip(i as int).len() ==> p@.skip(i as int).take(d@.len() as int)
                    =~= p@.subrange(i as int, i + d@.len()));
            }
        }
        i = i + 1;
    }
    false
}

fn ends_with_lit(n: &Vec<char>, lit: &str) -> (r: bool)
    ensures
        r == ends_with(n@, lit@),
{
    let l = chars_of(lit);
    chars_end_with(n, &l)
}

fn is_lit(n: &Vec<char>, lit: &str) -> (r: bool)
    ensures
        r == (n@ == lit@),
{
    let l = chars_of(lit);
    chars_equal(n, &l)
}

/// Whether a generated file at `path` is worth a snapshot for `language`.
pub fn is_included(language: Language, path: &str) -> (r: bool)
    ensures
        r == included(language, path@),
{
    let p = chars_of(path);
    let n = file_name_chars(&p);
    match language {
        Language::Python => ends_with_lit(&n, ".py") || ends_with_lit(&n, ".toml") || ends_with_lit(&n, ".in")
            || is_lit(&n, "py.typed"),
        Language::JavaScript => {
            let source = ends_with_lit(&n, ".js") || ends_with_lit(&n, ".mjs") || ends_with_lit(&n, ".cjs")
                || ends_with_lit(&n, ".ts") || is_lit(&n, "package.json");
            if !source {
                return false;
            }
            let d = chars_of("node_modules");
            !is_under_dir(&p, &d)
        },
    }
}

/// Lexicographic order of character sequences, by code point.
pub open spec fn lex_lt(a: Seq<char>, b: Seq<char>) -> bool
    decreases a.len(),
{
    if b.len() == 0 {
        false
    } else if a.len() == 0 {
        true
    } else if a[0] < b[0] {
        true
    } else if a[0] == b[0] {
        lex_lt(a.skip(1), b.skip(1))
    } else {
        false
    }
}

proof fn lemma_lex_irreflexive(a: Seq<char>)
    ensures
        !lex_lt(a, a),
    decreases a.len(),
{
    if a.len() > 0 {
        lemma_lex_irreflexive(a.skip(1));
    }
}

proof fn lemma_lex_total(a: Seq<char>, b: Seq<char>)
    ensures
        a == b || lex_lt(a, b) || lex_lt(b, a),
    decreases a.len(),
{
    if a.len() > 0 && b.len() > 0 && a[0] == b[0] {
        lemma_lex_total(a.skip(1), b.skip(1));
        if a.skip(1) == b.skip(1) {
            assert(a =~= seq![a[0]] + a.skip(1));
            assert(b =~= seq![b[0]] + b.skip(1));
        }
    } else if a.len() > 0 && b.len() > 0 {
        assert(a[0] != b[0]);
    } else if a.len() == 0 && b.len() == 0 {
        assert(a =~= b);
    }
}

proof fn lemma_lex_transitive(a: Seq<char>, b: Seq<char>, c: Seq<char>)
    requires
        lex_lt(a, b),
        lex_lt(b, c),
    ensures
        lex_lt(a, c),
    decreases a.len(),
{
    if a.len() > 0 && a[0] == b[0] && b[0] == c[0] {
        lemma_lex_transitive(a.skip(1), b.skip(1), c.skip(1));
    }
}

fn lex_less(a: &Vec<char>, b: &Vec<char>) -> (r: bool)
    ensures
        r == lex_lt(a@, b@),
{
    let mut i: usize = 0;
    assert(a@.skip(0) =~= a@);
    assert(b@.skip(0) =~= b@);
    while i < a.len() && i < b.len() && a[i] == b[i]
        invariant
            i <= a@.len(),
            i <= b@.len(),
            lex_lt(a@, b@) == lex_lt(a@.skip(i as int), b@.skip(i as int)),
        decreases a@.len() - i,
    {
        assert(a@.skip(i as int).skip(1) =~= a@.skip(i + 1));
        assert(b@.skip(i as int).skip(1) =~= b@.skip(i + 1));
        i = i + 1;
    }
    if i == b.len() {
        false
    } else if i == a.len() {
        true
    } else {
        a[i] < b[i]
    }
}

/// Paths in strictly increasing order.
#[verifier::opaque]
pub open spec fn strictly_sorted(ps: Seq<Seq<char>>) -> bool {
    forall|i: int, j: int| 0 <= i < j < ps.len() ==> lex_lt(#[trigger] ps[i], #[trigger] ps[j])
}

/// Strictly sorted paths are distinct: a capture names each path once.
pub proof fn lemma_sorted_unique(ps: Seq<Seq<char>>)
    requires
        strictly_sorted(ps),
    ensures
        ps.no_duplicates(),
{
    reveal(strictly_sorted);
    assert forall|i: int, j: int| 0 <= i < ps.len() && 0 <= j < ps.len() && i != j implies ps[i] != ps[j] by {
        if i < j {
            assert(lex_lt(ps[i], ps[j]));
            lemma_lex_irreflexive(ps[i]);
        } else {
            assert(lex_lt(ps[j], ps[i]));
            lemma_lex_irreflexive(ps[i]);
        }
    }
}

/// `y` is, with normalised content, one of the first `j` generated files
/// that `language` includes.
pub open spec fn from_input(language: Language, g: Seq<(Seq<char>, Seq<char>)>, j: int, y: (Seq<char>, Seq<char>)) -> bool {
    exists|m: int| 0 <= m < j && included(language, g[m].0) && y == (g[m].0, normalized(g[m].1))
}

pub open spec fn holds_entry(cap: Seq<(Seq<char>, Seq<char>)>, y: (Seq<char>, Seq<char>)) -> bool {
    exists|i: int| 0 <= i < cap.len() && cap[i] == y
}

pub open spec fn holds_path(cap: Seq<(Seq<char>, Seq<char>)>, p: Seq<char>) -> bool {
    exists|i: int| 0 <= i < cap.len() && cap[i].0 == p
}

/// `cap` is the capture of `generated` for `language`: the included files,
/// each path once, in strictly increasing path order, with normalised
/// content.
pub open spec fn captures(
    language: Language,
    generated: Seq<(Seq<char>, Seq<char>)>,
    cap: Seq<(Seq<char>, Seq<char>)>,
) -> bool {
    &&& strictly_sorted(paths_of(cap))
    &&& forall|i: int| 0 <= i < cap.len() ==> from_input(language, generated, generated.len() as int, #[trigger] cap[i])
    &&& forall|m: int|
        0 <= m < generated.len() && included(language, #[trigger] generated[m].0) ==> holds_path(cap, generated[m].0)
}

proof fn lemma_insert_sorted(ps: Seq<Seq<char>>, k: int, x: Seq<char>)
    requires
        strictly_sorted(ps),
        0 <= k <= ps.len(),
        forall|m: int| 0 <= m < k ==> lex_lt(#[trigger] ps[m], x),
        k < ps.len() ==> lex_lt(x, ps[k]),
    ensures
        strictly_sorted(ps.insert(k, x)),
{
    reveal(strictly_sorted);
    let q = ps.insert(k, x);
    ps.insert_ensures(k, x);
    assert forall|i: int, j: int| 0 <= i < j < q.len() implies lex_lt(#[trigger] q[i], #[trigger] q[j]) by {
        if j < k {
            assert(q[i] == ps[i] && q[j] == ps[j]);
        } else if j == k {
            assert(q[i] == ps[i]);
        } else if i < k {
            assert(q[i] == ps[i] && q[j] == ps[j - 1]);
        } else if i == k {
            assert(q[j] == ps[j - 1]);
            if j - 1 > k {
                lemma_lex_transitive(x, ps[k], ps[j - 1]);
            }
        } else {
            assert(q[i] == ps[i - 1] && q[j] == ps[j - 1]);
        }
    }
}

proof fn lemma_insert_entries(e: Seq<(Seq<char>, Seq<char>)>, k: int, x: (Seq<char>, Seq<char>))
    requires
        0 <= k <= e.len(),
    ensures
        forall|y: (Seq<char>, Seq<char>)| holds_entry(e.insert(k, x), y) ==> y == x || holds_entry(e, y),
        forall|y: (Seq<char>, Seq<char>)| holds_entry(e, y) ==> holds_entry(e.insert(k, x), y),
        holds_entry(e.insert(k, x), x),
{
    let n = e.insert(k, x);
    e.insert_ensures(k, x);
    assert forall|y: (Seq<char>, Seq<char>)| holds_entry(n, y) implies y == x || holds_entry(e, y) by {
        let i = choose|i: int| 0 <= i < n.len() && n[i] == y;
        if i < k {
            assert(e[i] == y);
        } else if i > k {
            assert(e[i - 1] == y);
        }
    }
    assert forall|y: (Seq<char>, Seq<char>)| holds_entry(e, y) implies holds_entry(n, y) by {
        let i = choose|i: int| 0 <= i < e.len() && e[i] == y;
        if i < k {
            assert(n[i] == y);
        } else {
            assert(n[i + 1] == y);
        }
    }
    assert(n[k] == x);
}

/// Adds `f` to the sorted list `out`, with normalised content, unless its
/// path is already there.
fn add_sorted(out: &mut Vec<SnapshotFile>, f: &SnapshotFile)
    requires
        strictly_sorted(paths_of(entries(old(out)@))),
    ensures
        strictly_sorted(paths_of(entries(final(out)@))),
        forall|y: (Seq<char>, Seq<char>)| holds_entry(entries(final(out)@), y)
            ==> y == (f.path@, normalized(f.contents@)) || holds_entry(entries(old(out)@), y),
        forall|y: (Seq<char>, Seq<char>)| holds_entry(entries(old(out)@), y) ==> holds_entry(entries(final(out)@), y),
        holds_path(entries(final(out)@), f.path@),
{
    let key = chars_of(f.path.as_str());
    let ghost e = entries(out@);
    let ghost ps = paths_of(e);
    let mut k: usize = 0;
    while k < out.len() && lex_less(&chars_of(out[k].path.as_str()), &key)
        invariant
            k <= out@.len(),
            e == entries(out@),
            ps == paths_of(e),
            key@ == f.path@,
            forall|m: int| 0 <= m < k ==> lex_lt(#[trigger] ps[m], key@),
        decreases out@.len() - k,
    {
        assert(ps[k as int] == out@[k as int].path@);
        k = k + 1;
    }
    if k < out.len() && out[k].path == f.path {
        assert(e[k as int].0 == f.path@);
        return;
    }
    proof {
        if k < out@.len() {
            assert(ps[k as int] == out@[k as int].path@);
            lemma_lex_total(key@, ps[k as int]);
        }
        lemma_insert_sorted(ps, k as int, key@);
    }
    let item = SnapshotFile { path: f.path.clone(), contents: normalize(f.contents.as_str()) };
    let ghost x = (item.path@, item.contents@);
    out.insert(k, item);
    proof {
        assert(entries(out@) =~= e.insert(k as int, x));
        assert(paths_of(entries(out@)) =~= ps.insert(k as int, key@));
        lemma_insert_entries(e, k as int, x);
        let i = choose|i: int| 0 <= i < entries(out@).len() && entries(out@)[i] == x;
        assert(entries(out@)[i].0 == f.path@);
    }
}

/// The capture of the files generated for `language`: the included ones,
/// each path once, in strictly increasing path order, with normalised
/// content.
pub fn capture(language: Language, generated: &Vec<SnapshotFile>) -> (r: Capture)
    ensures
        captures(language, entries(generated@), r@),
{
    let ghost g = entries(generated@);
    let mut out: Vec<SnapshotFile> = Vec::new();
    let mut j: usize = 0;
    proof {
        reveal(strictly_sorted);
    }
    while j < generated.len()
        invariant
            j <= generated@.len(),
            g == entries(generated@),
            strictly_sorted(paths_of(entries(out@))),
            forall|y: (Seq<char>, Seq<char>)| holds_entry(entries(out@), y) ==> from_input(language, g, j as int, y),
            forall|m: int| 0 <= m < j && included(language, #[trigger] g[m].0) ==> holds_path(entries(out@), g[m].0),
        decreases generated@.len() - j,
    {
        let f = &generated[j];
        assert(g[j as int] == (f.path@, f.contents@));
        let ghost e = entries(out@);
        if is_included(language, f.path.as_str()) {
            add_sorted(&mut out, f);
            proof {
                let n = entries(out@);
                assert forall|y: (Seq<char>, Seq<char>)| holds_entry(n, y) implies from_input(language, g, j + 1, y) by {
                    if y != (f.path@, normalized(f.contents@)) {
                        assert(from_input(language, g, j as int, y));
                    }
                }
                assert forall|m: int| 0 <= m < j + 1 && included(language, #[trigger] g[m].0) implies holds_path(n, g[m].0) by {
                    if m < j {
                        let q = choose|q: int| 0 <= q < e.len() && e[q].0 == g[m].0;
                        assert(holds_entry(e, e[q]));
                        let i = choose|i: int| 0 <= i < n.len() && n[i] == e[q];
                    }
                }
            }
        } else {
            proof {
                assert forall|y: (Seq<char>, Seq<char>)| holds_entry(e, y) implies from_input(language, g, j + 1, y) by {
                    assert(from_input(language, g, j as int, y));
                }
            }
        }
        j = j + 1;
    }
    proof {
        lemma_sorted_unique(paths_of(entries(out@)));
        let c = entries(out@);
        assert forall|i: int| 0 <= i < c.len() implies from_input(language, g, g.len() as int, #[trigger] c[i]) by {
            assert(holds_entry(c, c[i]));
        }
    }
    Capture::from_files(out)
}

proof fn lemma_sorted_same_elements(p1: Seq<Seq<char>>, p2: Seq<Seq<char>>)
    requires
        strictly_sorted(p1),
        strictly_sorted(p2),
        forall|x: Seq<char>| p1.contains(x) <==> p2.contains(x),
    ensures
        p1 == p2,
    decreases p1.len(),
{
    reveal(strictly_sorted);
    if p1.len() == 0 {
        if p2.len() > 0 {
            assert(p2.contains(p2[0]));
        }
        assert(p1 =~= p2);
    } else {
        assert(p1.contains(p1[0]));
        assert(p2.len() > 0);
        assert(p2.contains(p2[0]));
        if p1[0] != p2[0] {
            let k1 = choose|k: int| 0 <= k < p2.len() && p2[k] == p1[0];
            let k2 = choose|k: int| 0 <= k < p1.len() && p1[k] == p2[0];
            assert(lex_lt(p2[0], p2[k1]));
            assert(lex_lt(p1[0], p1[k2]));
            lemma_lex_transitive(p1[0], p2[0], p1[0]);
            lemma_lex_irreflexive(p1[0]);
        }
        let q1 = p1.skip(1);
        let q2 = p2.skip(1);
        assert forall|i: int, j: int| 0 <= i < j < q1.len() implies lex_lt(#[trigger] q1[i], #[trigger] q1[j]) by {
            assert(q1[i] == p1[i + 1] && q1[j] == p1[j + 1]);
        }
        assert forall|i: int, j: int| 0 <= i < j < q2.len() implies lex_lt(#[trigger] q2[i], #[trigger] q2[j]) by {
            assert(q2[i] == p2[i + 1] && q2[j] == p2[j + 1]);
        }
        assert forall|x: Seq<char>| q1.contains(x) implies q2.contains(x) by {
            let i = choose|i: int| 0 <= i < q1.len() && q1[i] == x;
            assert(p1[i + 1] == x);
            assert(p1.contains(x));
            let k = choose|k: int| 0 <= k < p2.len() && p2[k] == x;
            if k == 0 {
                assert(lex_lt(p1[0], p1[i + 1]));
                lemma_lex_irreflexive(x);
            }
            assert(q2[k - 1] == x);
        }
        assert forall|x: Seq<char>| q2.contains(x) implies q1.contains(x) by {
            let i = choose|i: int| 0 <= i < q2.len() && q2[i] == x;
            assert(p2[i + 1] == x);
            assert(p2.contains(x));
            let k = choose|k: int| 0 <= k < p1.len() && p1[k] == x;
            if k == 0 {
                assert(lex_lt(p2[0], p2[i + 1]));
                lemma_lex_irreflexive(x);
            }
            assert(q1[k - 1] == x);
        }
        lemma_sorted_same_elements(q1, q2);
        assert(p1 =~= seq![p1[0]] + q1);
        assert(p2 =~= seq![p2[0]] + q2);
    }
}

/// The capture is determined by the generated files: where their paths are
/// distinct, any two captures of them are the same, so unchanged output gives
/// an unchanged capture.
pub proof fn lemma_capture_determined(
    language: Language,
    g: Seq<(Seq<char>, Seq<char>)>,
    c1: Seq<(Seq<char>, Seq<char>)>,
    c2: Seq<(Seq<char>, Seq<char>)>,
)
    requires
        paths_of(g).no_duplicates(),
        captures(language, g, c1),
        captures(language, g, c2),
    ensures
        c1 == c2,
{
    let p1 = paths_of(c1);
    let p2 = paths_of(c2);
    assert forall|x: Seq<char>| p1.contains(x) implies p2.contains(x) by {
        let i = choose|i: int| 0 <= i < p1.len() && p1[i] == x;
        assert(from_input(language, g, g.len() as int, c1[i]));
        let m = choose|m: int| 0 <= m < g.len() && included(language, g[m].0) && c1[i] == (g[m].0, normalized(g[m].1));
        assert(holds_path(c2, g[m].0));
        let k = choose|k: int| 0 <= k < c2.len() && c2[k].0 == g[m].0;
        assert(p2[k] == x);
    }
    assert forall|x: Seq<char>| p2.contains(x) implies p1.contains(x) by {
        let i = choose|i: int| 0 <= i < p2.len() && p2[i] == x;
        assert(from_input(language, g, g.len() as int, c2[i]));
        let m = choose|m: int| 0 <= m < g.len() && included(language, g[m].0) && c2[i] == (g[m].0, normalized(g[m].1));
        assert(holds_path(c1, g[m].0));
        let k = choose|k: int| 0 <= k < c1.len() && c1[k].0 == g[m].0;
        assert(p1[k] == x);
    }
    lemma_sorted_same_elements(p1, p2);
    assert forall|i: int| 0 <= i < c1.len() implies c1[i] == c2[i] by {
        assert(p1[i] == p2[i]);
        assert(from_input(language, g, g.len() as int, c1[i]));
        assert(from_input(language, g, g.len() as int, c2[i]));
        let m1 = choose|m: int| 0 <= m < g.len() && included(language, g[m].0) && c1[i] == (g[m].0, normalized(g[m].1));
        let m2 = choose|m: int| 0 <= m < g.len() && included(language, g[m].0) && c2[i] == (g[m].0, normalized(g[m].1));
        assert(paths_of(g)[m1] == paths_of(g)[m2]);
    }
    assert(c1 =~= c2);
}

} // verus!
