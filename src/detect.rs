use vstd::prelude::*;
use crate::language::{language_of_file, language_of_path, Language};

verus! {

/// The languages whose signature extensions occur among `paths`.
pub open spec fn detected(paths: Seq<Seq<char>>) -> Set<Language> {
    Set::new(|l: Language| exists|i: int| 0 <= i < paths.len() && language_of_path(paths[i]) == Some(l))
}

/// The views of a list of strings.
pub open spec fn views(v: Seq<String>) -> Seq<Seq<char>> {
    v.map_values(|s: String| s@)
}

/// A set of languages; each language is in it at most once.
#[derive(Clone, Copy, Debug, PartialEq, Eq, Structural)]
pub struct LanguageSet {
    javascript: bool,
    python: bool,
}

impl View for LanguageSet {
    type V = Set<Language>;

    closed spec fn view(&self) -> Set<Language> {
        Set::new(|l: Language| match l {
            Language::JavaScript => self.javascript,
            Language::Python => self.python,
        })
    }
}

/// The languages in canonical-name order (`javascript` before `python`).
pub open spec fn in_name_order(s: Set<Language>) -> Seq<Language> {
    (if s.contains(Language::JavaScript) { seq![Language::JavaScript] } else { Seq::empty() })
        + (if s.contains(Language::Python) { seq![Language::Python] } else { Seq::empty() })
}

impl LanguageSet {
    pub fn new() -> (r: LanguageSet)
        ensures
            r@ == Set::<Language>::empty(),
    {
        let r = LanguageSet { javascript: false, python: false };
        assert(r@ =~= Set::<Language>::empty());
        r
    }

    pub fn insert(&mut self, l: Language)
        ensures
            final(self)@ == old(self)@.insert(l),
    {
        match l {
            Language::JavaScript => self.javascript = true,
            Language::Python => self.python = true,
        }
        assert(self@ =~= old(self)@.insert(l));
    }

    pub fn contains(&self, l: Language) -> (r: bool)
        ensures
            r == self@.contains(l),
    {
        match l {
            Language::JavaScript => self.javascript,
            Language::Python => self.python,
        }
    }

    pub fn len(&self) -> (r: usize)
        ensures
            r == self@.len(),
    {
        let v = self.in_order();
        proof {
            lemma_in_name_order_set(self@);
        }
        v.len()
    }

    /// The languages in canonical-name order, the order in which a run
    /// processes them.
    pub fn in_order(&self) -> (r: Vec<Language>)
        ensures
            r@ == in_name_order(self@),
            r@.no_duplicates(),
            r@.to_set() == self@,
    {
        let mut r: Vec<Language> = Vec::new();
        if self.javascript {
            r.push(Language::JavaScript);
        }
        if self.python {
            r.push(Language::Python);
        }
        assert(r@ =~= in_name_order(self@));
        proof {
            lemma_in_name_order_set(self@);
        }
        r
    }
}

proof fn lemma_in_name_order_set(s: Set<Language>)
    ensures
        in_name_order(s).no_duplicates(),
        in_name_order(s).to_set() == s,
        in_name_order(s).len() == s.len(),
{
    let q = in_name_order(s);
    assert(q.to_set() =~= s) by {
        assert forall|l: Language| s.contains(l) implies q.to_set().contains(l) by {
            match l {
                Language::JavaScript => assert(q[0] == l),
                Language::Python => assert(q[q.len() - 1] == l),
            }
        }
    }
    assert(q.no_duplicates());
    q.unique_seq_to_set();
}

/// The Detected Language Set of the files visited in a fixture tree: every
/// language whose signature extension one of `paths` carries.
pub fn detect_languages(paths: &Vec<String>) -> (r: LanguageSet)
    ensures
        r@ == detected(views(paths@)),
{
    let mut set = LanguageSet::new();
    let mut i: usize = 0;
    while i < paths.len()
        invariant
            i <= paths@.len(),
            set@ == detected(views(paths@.take(i as int))),
        decreases paths@.len() - i,
    {
        let found = language_of_file(paths[i].as_str());
        let ghost before = set@;
        if let Some(l) = found {
            set.insert(l);
        }
        proof {
            let pv = views(paths@.take(i + 1));
            let qv = views(paths@.take(i as int));
            assert(set@ =~= detected(pv)) by {
                assert forall|l: Language| detected(pv).contains(l) implies set@.contains(l) by {
                    let k = choose|k: int| 0 <= k < pv.len() && language_of_path(pv[k]) == Some(l);
                    if k < i {
                        assert(pv[k] == qv[k]);
                    }
                }
                assert forall|l: Language| set@.contains(l) implies detected(pv).contains(l) by {
                    if before.contains(l) {
                        let k = choose|k: int| 0 <= k < qv.len() && language_of_path(qv[k]) == Some(l);
                        assert(pv[k] == qv[k]);
                    } else {
                        assert(language_of_path(pv[i as int]) == Some(l));
                    }
                }
            }
        }
        i = i + 1;
    }
    assert(paths@.take(paths@.len() as int) =~= paths@);
    set
}

/// Detection is a set union over the visited files: the order in which they
/// are visited, and visiting a file twice, do not change the result.
pub proof fn lemma_detection_ignores_order(a: Seq<Seq<char>>, b: Seq<Seq<char>>)
    requires
        a.to_set() == b.to_set(),
    ensures
        detected(a) == detected(b),
{
    assert forall|l: Language| detected(a).contains(l) implies detected(b).contains(l) by {
        let k = choose|k: int| 0 <= k < a.len() && language_of_path(a[k]) == Some(l);
        assert(a.to_set().contains(a[k]));
        assert(b.to_set().contains(a[k]));
    }
    assert forall|l: Language| detected(b).contains(l) implies detected(a).contains(l) by {
        let k = choose|k: int| 0 <= k < b.len() && language_of_path(b[k]) == Some(l);
        assert(b.to_set().contains(b[k]));
        assert(a.to_set().contains(b[k]));
    }
    assert(detected(a) =~= detected(b));
}

/// Files that signal no language never add one: a fixture tree with extra
/// such files is detected as without them.
pub proof fn lemma_detection_ignores_foreign_files(a: Seq<Seq<char>>, extra: Seq<Seq<char>>)
    requires
        forall|i: int| 0 <= i < extra.len() ==> language_of_path(#[trigger] extra[i]) is None,
    ensures
        detected(a + extra) == detected(a),
{
    assert forall|l: Language| detected(a + extra).contains(l) implies detected(a).contains(l) by {
        let k = choose|k: int| 0 <= k < (a + extra).len() && language_of_path((a + extra)[k]) == Some(l);
        if k >= a.len() {
            assert((a + extra)[k] == extra[k - a.len()]);
        } else {
            assert((a + extra)[k] == a[k]);
        }
    }
    assert forall|l: Language| detected(a).contains(l) implies detected(a + extra).contains(l) by {
        let k = choose|k: int| 0 <= k < a.len() && language_of_path(a[k]) == Some(l);
        assert((a + extra)[k] == a[k]);
    }
    assert(detected(a + extra) =~= detected(a));
}

} // verus!
