use vstd::prelude::*;
use crate::text::{chars_of, has_prefix_at, string_of};

verus! {

pub open spec fn is_digit(c: char) -> bool {
    '0' <= c <= '9'
}

/// Number of ASCII digits at the start of `s`.
pub open spec fn digit_run(s: Seq<char>) -> nat
    decreases s.len(),
{
    if s.len() > 0 && is_digit(s[0]) {
        1 + digit_run(s.skip(1))
    } else {
        0
    }
}

/// What a version string starts with.
pub open spec fn version_prefix() -> Seq<char> {
    "wasmer-pack v"@
}

/// What each version string becomes.
pub open spec fn version_placeholder() -> Seq<char> {
    "wasmer-pack vX.Y.Z"@
}

/// Length of the version string `wasmer-pack vMAJOR.MINOR.PATCH` (each part
/// one or more digits, as many as follow) at the start of `s`, or 0.
pub open spec fn version_len(s: Seq<char>) -> nat {
    let p = version_prefix().len() as int;
    if !(p <= s.len() && s.take(p as int) == version_prefix()) {
        0
    } else {
        let a = digit_run(s.skip(p)) as int;
        let da = p + a;
        if a == 0 || !(da < s.len() && s[da as int] == '.') {
            0
        } else {
            let b = digit_run(s.skip(da + 1)) as int;
            let db = da + 1 + b;
            if b == 0 || !(db < s.len() && s[db as int] == '.') {
                0
            } else {
                let c = digit_run(s.skip(db + 1)) as int;
                if c == 0 {
                    0
                } else {
                    (db + 1 + c) as nat
                }
            }
        }
    }
}

/// `s` with every version string, taken from left to right without overlap,
/// replaced by the placeholder.
pub open spec fn normalized(s: Seq<char>) -> Seq<char>
    decreases s.len(),
{
    if s.len() == 0 {
        Seq::empty()
    } else {
        let m = version_len(s);
        if 0 < m && m <= s.len() {
            version_placeholder() + normalized(s.skip(m as int))
        } else {
            seq![s[0]] + normalized(s.skip(1))
        }
    }
}

proof fn lemma_digit_run_bound(s: Seq<char>)
    ensures
        digit_run(s) <= s.len(),
        forall|j: int| 0 <= j < digit_run(s) ==> is_digit(#[trigger] s[j]),
        digit_run(s) < s.len() ==> !is_digit(s[digit_run(s) as int]),
    decreases s.len(),
{
    if s.len() > 0 && is_digit(s[0]) {
        lemma_digit_run_bound(s.skip(1));
        assert forall|j: int| 0 <= j < digit_run(s) implies is_digit(#[trigger] s[j]) by {
            if j > 0 {
                assert(s[j] == s.skip(1)[j - 1]);
            }
        }
    }
}

proof fn lemma_version_len_bound(s: Seq<char>)
    ensures
        version_len(s) <= s.len(),
{
    let p = version_prefix().len() as int;
    if p <= s.len() {
        lemma_digit_run_bound(s.skip(p));
        let da = p + digit_run(s.skip(p));
        if da < s.len() {
            lemma_digit_run_bound(s.skip(da + 1));
            let db = da + 1 + digit_run(s.skip(da + 1));
            if db < s.len() {
                lemma_digit_run_bound(s.skip(db + 1));
            }
        }
    }
}

fn digit_run_at(s: &Vec<char>, i: usize) -> (r: usize)
    requires
        i <= s@.len(),
    ensures
        r == digit_run(s@.skip(i as int)),
        i + r <= s@.len(),
{
    let mut k: usize = i;
    while k < s.len() && '0' <= s[k] && s[k] <= '9'
        invariant
            i <= k <= s@.len(),
            digit_run(s@.skip(i as int)) == (k - i) + digit_run(s@.skip(k as int)),
        decreases s@.len() - k,
    {
        assert(s@.skip(k as int).skip(1) =~= s@.skip(k + 1));
        k = k + 1;
    }
    k - i
}

fn version_len_at(s: &Vec<char>, i: usize, prefix: &Vec<char>) -> (r: usize)
    requires
        i <= s@.len(),
        prefix@ == version_prefix(),
    ensures
        r == version_len(s@.skip(i as int)),
{
    let ghost t = s@.skip(i as int);
    proof {
        lemma_version_len_bound(t);
    }
    let n = s.len();
    if !has_prefix_at(s, i, prefix) {
        return 0;
    }
    let p = i + prefix.len();
    assert(t.skip(prefix@.len() as int) =~= s@.skip(p as int));
    let a = digit_run_at(s, p);
    let da = p + a;
    if a == 0 || !(da < s.len() && s[da] == '.') {
        return 0;
    }
    assert(t.skip(da - i + 1) =~= s@.skip(da + 1));
    let b = digit_run_at(s, da + 1);
    let db = da + 1 + b;
    if b == 0 || !(db < s.len() && s[db] == '.') {
        return 0;
    }
    assert(t.skip(db - i + 1) =~= s@.skip(db + 1));
    let c = digit_run_at(s, db + 1);
    if c == 0 {
        return 0;
    }
    db + 1 + c - i
}

/// The content with every `wasmer-pack vMAJOR.MINOR.PATCH` collapsed to
/// `wasmer-pack vX.Y.Z`, so that a version bump is no regression.
pub fn normalize(text: &str) -> (r: String)
    ensures
        r@ == normalized(text@),
{
    let s = chars_of(text);
    let prefix = chars_of("wasmer-pack v");
    let placeholder = chars_of("wasmer-pack vX.Y.Z");
    let mut out: Vec<char> = Vec::new();
    let mut i: usize = 0;
    assert(s@.skip(0) =~= s@);
    while i < s.len()
        invariant
            i <= s@.len(),
            prefix@ == version_prefix(),
            placeholder@ == version_placeholder(),
            normalized(s@) == out@ + normalized(s@.skip(i as int)),
        decreases s@.len() - i,
    {
        let ghost t = s@.skip(i as int);
        let m = version_len_at(&s, i, &prefix);
        proof {
            lemma_version_len_bound(t);
        }
        if m > 0 {
            let ghost before = out@;
            let mut k: usize = 0;
            while k < placeholder.len()
                invariant
                    k <= placeholder@.len(),
                    out@ == before + placeholder@.take(k as int),
                decreases placeholder@.len() - k,
            {
                out.push(placeholder[k]);
                k = k + 1;
                assert(out@ =~= before + placeholder@.take(k as int));
            }
            assert(placeholder@.take(placeholder@.len() as int) =~= placeholder@);
            assert(t.skip(m as int) =~= s@.skip(i + m));
            assert(out@ + normalized(s@.skip(i + m)) =~= before + normalized(t));
            i = i + m;
        } else {
            let ghost before = out@;
            out.push(s[i]);
            assert(t.skip(1) =~= s@.skip(i + 1));
            assert(out@ + normalized(s@.skip(i + 1)) =~= before + normalized(t));
            i = i + 1;
        }
    }
    assert(s@.skip(i as int) =~= Seq::<char>::empty());
    assert(out@ + Seq::<char>::empty() =~= out@);
    string_of(&out)
}

pub open spec fn all_digits(a: Seq<char>) -> bool {
    forall|i: int| 0 <= i < a.len() ==> is_digit(#[trigger] a[i])
}

/// The version string `wasmer-pack v{major}.{minor}.{patch}`.
pub open spec fn version_string(major: Seq<char>, minor: Seq<char>, patch: Seq<char>) -> Seq<char> {
    version_prefix() + major + seq!['.'] + minor + seq!['.'] + patch
}

proof fn lemma_digit_run_concat(a: Seq<char>, b: Seq<char>)
    requires
        all_digits(a),
    ensures
        digit_run(a + b) == a.len() + digit_run(b),
    decreases a.len(),
{
    if a.len() == 0 {
        assert(a + b =~= b);
    } else {
        assert((a + b).skip(1) =~= a.skip(1) + b);
        assert((a + b)[0] == a[0]);
        assert(all_digits(a.skip(1))) by {
            assert forall|i: int| 0 <= i < a.skip(1).len() implies is_digit(#[trigger] a.skip(1)[i]) by {
                assert(a.skip(1)[i] == a[i + 1]);
            }
        }
        lemma_digit_run_concat(a.skip(1), b);
    }
}

proof fn lemma_digit_run_stops(a: Seq<char>, r: Seq<char>)
    requires
        r.len() > 0,
        !is_digit(r[0]),
    ensures
        digit_run(a + r) == digit_run(a),
    decreases a.len(),
{
    if a.len() == 0 {
        assert(a + r =~= r);
    } else {
        assert((a + r).skip(1) =~= a.skip(1) + r);
        assert((a + r)[0] == a[0]);
        lemma_digit_run_stops(a.skip(1), r);
    }
}

/// A version string cannot start inside `s` and reach into a following `r`
/// that starts with `w`.
proof fn lemma_version_len_stops(s: Seq<char>, r: Seq<char>)
    requires
        s.len() > 0,
        r.len() > 0,
        r[0] == 'w',
    ensures
        version_len(s + r) == version_len(s),
{
    reveal_strlit("wasmer-pack v");
    let t = s + r;
    let p = version_prefix().len() as int;
    lemma_digit_run_bound(s);
    if s.len() < p {
        if t.len() >= p {
            assert(t[s.len() as int] == r[0]);
            assert(t.take(p)[s.len() as int] == 'w');
            assert(version_prefix()[s.len() as int] != 'w');
        }
    } else {
        assert(t.take(p) =~= s.take(p));
        assert(t.skip(p) =~= s.skip(p) + r);
        lemma_digit_run_stops(s.skip(p), r);
        lemma_digit_run_bound(s.skip(p));
        let da = p + digit_run(s.skip(p));
        if da < s.len() {
            assert(t[da] == s[da]);
            assert(t.skip(da + 1) =~= s.skip(da + 1) + r);
            lemma_digit_run_stops(s.skip(da + 1), r);
            lemma_digit_run_bound(s.skip(da + 1));
            let db = da + 1 + digit_run(s.skip(da + 1));
            if db < s.len() {
                assert(t[db] == s[db]);
                assert(t.skip(db + 1) =~= s.skip(db + 1) + r);
                lemma_digit_run_stops(s.skip(db + 1), r);
            } else if db == s.len() {
                assert(t[db] == 'w');
            }
        } else if da == s.len() {
            assert(t[da] == 'w');
        }
    }
}

/// Normalisation splits before a part that starts with `w`.
proof fn lemma_normalized_concat(s: Seq<char>, r: Seq<char>)
    requires
        r.len() > 0,
        r[0] == 'w',
    ensures
        normalized(s + r) == normalized(s) + normalized(r),
    decreases s.len(),
{
    if s.len() == 0 {
        assert(s + r =~= r);
        assert(normalized(s) + normalized(r) =~= normalized(r));
    } else {
        let t = s + r;
        lemma_version_len_stops(s, r);
        lemma_version_len_bound(s);
        let m = version_len(s);
        if m > 0 {
            assert(t.skip(m as int) =~= s.skip(m as int) + r);
            lemma_normalized_concat(s.skip(m as int), r);
            assert(normalized(t) =~= normalized(s) + normalized(r));
        } else {
            assert(t[0] == s[0]);
            assert(t.skip(1) =~= s.skip(1) + r);
            lemma_normalized_concat(s.skip(1), r);
            assert(normalized(t) =~= normalized(s) + normalized(r));
        }
    }
}

proof fn lemma_normalized_version(major: Seq<char>, minor: Seq<char>, patch: Seq<char>, post: Seq<char>)
    requires
        major.len() > 0 && minor.len() > 0 && patch.len() > 0,
        all_digits(major) && all_digits(minor) && all_digits(patch),
    ensures
        normalized(version_string(major, minor, patch) + post)
            == version_placeholder() + normalized(post.skip(digit_run(post) as int)),
{
    reveal_strlit("wasmer-pack v");
    let t = version_string(major, minor, patch) + post;
    let p = version_prefix().len() as int;
    let rest = major + seq!['.'] + minor + seq!['.'] + patch + post;
    assert(t =~= version_prefix() + rest);
    assert(t.take(p) =~= version_prefix());
    assert(t.skip(p) =~= major + (seq!['.'] + minor + seq!['.'] + patch + post));
    lemma_digit_run_concat(major, seq!['.'] + minor + seq!['.'] + patch + post);
    assert(digit_run(seq!['.'] + minor + seq!['.'] + patch + post) == 0) by {
        assert((seq!['.'] + minor + seq!['.'] + patch + post)[0] == '.');
    }
    let da = p + major.len();
    assert(t[da] == '.');
    assert(t.skip(da + 1) =~= minor + (seq!['.'] + patch + post));
    lemma_digit_run_concat(minor, seq!['.'] + patch + post);
    assert(digit_run(seq!['.'] + patch + post) == 0) by {
        assert((seq!['.'] + patch + post)[0] == '.');
    }
    let db = da + 1 + minor.len();
    assert(t[db] == '.');
    assert(t.skip(db + 1) =~= patch + post);
    lemma_digit_run_concat(patch, post);
    let m = db + 1 + patch.len() + digit_run(post);
    assert(version_len(t) == m);
    lemma_digit_run_bound(post);
    assert(t.skip(m) =~= post.skip(digit_run(post) as int));
}

/// A version bump is no change: texts that differ only in the numbers of one
/// `wasmer-pack vMAJOR.MINOR.PATCH` normalise to the same text.
pub proof fn lemma_version_bump_invisible(
    pre: Seq<char>,
    post: Seq<char>,
    a: (Seq<char>, Seq<char>, Seq<char>),
    b: (Seq<char>, Seq<char>, Seq<char>),
)
    requires
        a.0.len() > 0 && a.1.len() > 0 && a.2.len() > 0,
        b.0.len() > 0 && b.1.len() > 0 && b.2.len() > 0,
        all_digits(a.0) && all_digits(a.1) && all_digits(a.2),
        all_digits(b.0) && all_digits(b.1) && all_digits(b.2),
    ensures
        normalized(pre + version_string(a.0, a.1, a.2) + post) == normalized(pre + version_string(b.0, b.1, b.2) + post),
{
    reveal_strlit("wasmer-pack v");
    let va = version_string(a.0, a.1, a.2) + post;
    let vb = version_string(b.0, b.1, b.2) + post;
    assert(va[0] == 'w');
    assert(vb[0] == 'w');
    assert(pre + version_string(a.0, a.1, a.2) + post =~= pre + va);
    assert(pre + version_string(b.0, b.1, b.2) + post =~= pre + vb);
    lemma_normalized_concat(pre, va);
    lemma_normalized_concat(pre, vb);
    lemma_normalized_version(a.0, a.1, a.2, post);
    lemma_normalized_version(b.0, b.1, b.2, post);
}

} // verus!
