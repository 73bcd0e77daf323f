//! Glob patterns over branch names: `*` matches any run of characters
//! within one path segment (no `/`), `?` matches exactly one character, and
//! every other character matches itself.
use vstd::prelude::*;

verus! {

/// Whether pattern `p` matches the whole of `s`.
pub open spec fn glob_matches(p: Seq<char>, s: Seq<char>) -> bool
    decreases p.len(), s.len(),
{
    if p.len() == 0 {
        s.len() == 0
    } else if p[0] == '*' {
        glob_matches(p.drop_first(), s) || (s.len() > 0 && s[0] != '/' && glob_matches(p, s.drop_first()))
    } else if s.len() == 0 {
        false
    } else if p[0] == '?' || p[0] == s[0] {
        glob_matches(p.drop_first(), s.drop_first())
    } else {
        false
    }
}

proof fn lemma_skip_first<T>(s: Seq<T>, i: int)
    requires
        0 <= i < s.len(),
    ensures
        s.skip(i).drop_first() =~= s.skip(i + 1),
        s.skip(i)[0] == s[i],
        s.skip(i).len() > 0,
{
}

fn chars_of(s: &str) -> (r: Vec<char>)
    ensures
        r@ == s@,
{
    let n = s.unicode_len();
    let mut r: Vec<char> = Vec::new();
    let mut i: usize = 0;
    while i < n
        invariant
            n == s@.len(),
            i <= n,
            r@ =~= s@.subrange(0, i as int),
        decreases n - i,
    {
        r.push(s.get_char(i));
        i = i + 1;
    }
    r
}

fn matches_from(p: &Vec<char>, s: &Vec<char>, i: usize, j: usize) -> (r: bool)
    requires
        i <= p@.len(),
        j <= s@.len(),
    ensures
        r == glob_matches(p@.skip(i as int), s@.skip(j as int)),
    decreases p@.len() - i, s@.len() - j,
{
    proof {
        if i < p@.len() {
            lemma_skip_first(p@, i as int);
        }
        if j < s@.len() {
            lemma_skip_first(s@, j as int);
        }
    }
    if i == p.len() {
        return j == s.len();
    }
    if p[i] == '*' {
        if matches_from(p, s, i + 1, j) {
            return true;
        }
        return j < s.len() && s[j] != '/' && matches_from(p, s, i, j + 1);
    }
    if j == s.len() {
        return false;
    }
    if p[i] == '?' || p[i] == s[j] {
        return matches_from(p, s, i + 1, j + 1);
    }
    false
}

/// Whether `pattern` matches the whole of `name`.
pub fn glob_match(pattern: &str, name: &str) -> (r: bool)
    ensures
        r == glob_matches(pattern@, name@),
{
    let p = chars_of(pattern);
    let s = chars_of(name);
    proof {
        assert(p@.skip(0) =~= p@);
        assert(s@.skip(0) =~= s@);
    }
    matches_from(&p, &s, 0, 0)
}

} // verus!
