use vstd::prelude::*;
use crate::text::{chars_equal, chars_of};

verus! {

/// A target language that bindings can be generated for.
#[derive(Clone, Copy, Debug, PartialEq, Eq, Structural, Hash)]
pub enum Language {
    JavaScript,
    Python,
}

impl Language {
    /// Canonical name, used for binding directories and snapshot namespaces.
    pub open spec fn spec_name(self) -> Seq<char> {
        match self {
            Language::JavaScript => "javascript"@,
            Language::Python => "python"@,
        }
    }

    pub fn name(&self) -> (r: &'static str)
        ensures
            r@ == self.spec_name(),
    {
        match self {
            Language::JavaScript => "javascript",
            Language::Python => "python",
        }
    }
}

/// Index of the last occurrence of `c` in `s`, or -1.
pub open spec fn last_index_of(s: Seq<char>, c: char) -> int
    decreases s.len(),
{
    if s.len() == 0 {
        -1
    } else if s.last() == c {
        s.len() - 1
    } else {
        last_index_of(s.drop_last(), c)
    }
}

/// The last component of a `/`-separated path.
pub open spec fn file_name(path: Seq<char>) -> Seq<char> {
    path.skip(last_index_of(path, '/') + 1)
}

/// The text after the last `.` of a file name; a name with no `.`, or whose
/// only `.` leads it (a hidden file), has none.
pub open spec fn extension(name: Seq<char>) -> Option<Seq<char>> {
    let d = last_index_of(name, '.');
    if d <= 0 {
        None
    } else {
        Some(name.skip(d + 1))
    }
}

/// The language that a file extension signals, if any.
pub open spec fn language_of_extension(ext: Seq<char>) -> Option<Language> {
    if ext == "py"@ {
        Some(Language::Python)
    } else if ext == "mjs"@ || ext == "js"@ || ext == "ts"@ {
        Some(Language::JavaScript)
    } else {
        None
    }
}

/// The language that a file at `path` signals, if any.
pub open spec fn language_of_path(path: Seq<char>) -> Option<Language> {
    match extension(file_name(path)) {
        Some(ext) => language_of_extension(ext),
        None => None,
    }
}

proof fn lemma_last_index_bounds(s: Seq<char>, c: char)
    ensures
        -1 <= last_index_of(s, c) < s.len(),
        last_index_of(s, c) >= 0 ==> s[last_index_of(s, c)] == c,
    decreases s.len(),
{
    if s.len() > 0 && s.last() != c {
        lemma_last_index_bounds(s.drop_last(), c);
    }
}

fn find_last(s: &Vec<char>, c: char) -> (r: usize)
    ensures
        r as int == last_index_of(s@, c) + 1,
{
    let mut i: usize = s.len();
    assert(s@.take(i as int) =~= s@);
    while i > 0
        invariant
            i <= s@.len(),
            last_index_of(s@, c) == last_index_of(s@.take(i as int), c),
        decreases i,
    {
        assert(s@.take(i as int).drop_last() =~= s@.take(i - 1));
        if s[i - 1] == c {
            return i;
        }
        i = i - 1;
    }
    i
}

fn is_literal(v: &Vec<char>, lit: &str) -> (r: bool)
    ensures
        r == (v@ == lit@),
{
    let l = chars_of(lit);
    chars_equal(v, &l)
}

fn suffix_from(v: &Vec<char>, start: usize) -> (r: Vec<char>)
    requires
        start <= v@.len(),
    ensures
        r@ == v@.skip(start as int),
{
    let mut r: Vec<char> = Vec::new();
    let mut i: usize = start;
    while i < v.len()
        invariant
            start <= i <= v@.len(),
            r@ == v@.subrange(start as int, i as int),
        decreases v@.len() - i,
    {
        r.push(v[i]);
        i = i + 1;
        assert(r@ =~= v@.subrange(start as int, i as int));
    }
    assert(r@ =~= v@.skip(start as int));
    r
}

fn extension_chars(name: &Vec<char>) -> (r: Option<Vec<char>>)
    ensures
        match extension(name@) {
            Some(e) => r is Some && r->0@ == e,
            None => r is None,
        },
{
    proof {
        lemma_last_index_bounds(name@, '.');
    }
    let dot = find_last(name, '.');
    if dot <= 1 {
        None
    } else {
        Some(suffix_from(name, dot))
    }
}

/// The last component of the path `p`.
pub(crate) fn file_name_chars(p: &Vec<char>) -> (r: Vec<char>)
    ensures
        r@ == file_name(p@),
{
    proof {
        lemma_last_index_bounds(p@, '/');
    }
    let start = find_last(p, '/');
    suffix_from(p, start)
}

/// The language that a file at `path` signals, if any.
pub fn language_of_file(path: &str) -> (r: Option<Language>)
    ensures
        r == language_of_path(path@),
{
    let p = chars_of(path);
    let name = file_name_chars(&p);
    match extension_chars(&name) {
        None => None,
        Some(ext) => {
            if is_literal(&ext, "py") {
                Some(Language::Python)
            } else if is_literal(&ext, "mjs") || is_literal(&ext, "js") || is_literal(&ext, "ts") {
                Some(Language::JavaScript)
            } else {
                None
            }
        },
    }
}

} // verus!
