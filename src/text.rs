use vstd::prelude::*;

verus! {

/// Relies on `str::chars` collected into a `Vec`: the characters of `s`, in order.
#[verifier::external_body]
pub(crate) fn chars_of(s: &str) -> (r: Vec<char>)
    ensures
        r@ == s@,
{
    s.chars().collect()
}

/// Relies on collecting `char`s into a `String`: the string made of `v`, in order.
#[verifier::external_body]
pub(crate) fn string_of(v: &Vec<char>) -> (r: String)
    ensures
        r@ == v@,
{
    v.iter().collect()
}

/// Whether `s` ends with `suffix`.
pub open spec fn ends_with(s: Seq<char>, suffix: Seq<char>) -> bool {
    suffix.len() <= s.len() && s.subrange(s.len() - suffix.len(), s.len() as int) == suffix
}

pub fn chars_end_with(s: &Vec<char>, suffix: &Vec<char>) -> (r: bool)
    ensures
        r == ends_with(s@, suffix@),
{
    if suffix.len() > s.len() {
        return false;
    }
    let off: usize = s.len() - suffix.len();
    let mut k: usize = off;
    while k < s.len()
        invariant
            off as int + suffix@.len() == s@.len(),
            off <= k <= s@.len(),
            forall|j: int| 0 <= j < k - off ==> s@[off + j] == suffix@[j],
        decreases s@.len() - k,
    {
        if s[k] != suffix[k - off] {
            assert(s@.subrange(off as int, s@.len() as int)[k - off] != suffix@[k - off]);
            return false;
        }
        k = k + 1;
    }
    assert(s@.subrange(off as int, s@.len() as int) =~= suffix@);
    true
}

pub fn chars_equal(a: &Vec<char>, b: &Vec<char>) -> (r: bool)
    ensures
        r == (a@ == b@),
{
    if a.len() != b.len() {
        return false;
    }
    let mut i: usize = 0;
    while i < a.len()
        invariant
            a@.len() == b@.len(),
            i <= a@.len(),
            forall|j: int| 0 <= j < i ==> a@[j] == b@[j],
        decreases a@.len() - i,
    {
        if a[i] != b[i] {
            return false;
        }
        i = i + 1;
    }
    assert(a@ =~= b@);
    true
}

/// Whether `prefix` occurs in `s` at position `i`.
pub(crate) fn has_prefix_at(s: &Vec<char>, i: usize, prefix: &Vec<char>) -> (r: bool)
    requires
        i <= s@.len(),
    ensures
        r == (prefix@.len() <= s@.skip(i as int).len() && s@.skip(i as int).take(prefix@.len() as int) == prefix@),
{
    if prefix.len() > s.len() - i {
        return false;
    }
    let mut k: usize = 0;
    while k < prefix.len()
        invariant
            i + prefix@.len() <= s@.len(),
            s@.len() <= usize::MAX,
            k <= prefix@.len(),
            forall|j: int| 0 <= j < k ==> s@[i + j] == prefix@[j],
        decreases prefix@.len() - k,
    {
        if s[i + k] != prefix[k] {
            assert(s@.skip(i as int).take(prefix@.len() as int)[k as int] != prefix@[k as int]);
            return false;
        }
        k = k + 1;
    }
    assert(s@.skip(i as int).take(prefix@.len() as int) =~= prefix@);
    true
}

} // verus!
