//! Small verified helpers on strings and character sequences.
//!
//! Paths and file names are compared, searched and assembled as sequences of
//! characters throughout the library; this module holds the shared machinery:
//! conversion between `&str` and `Vec<char>`, and substring predicates with
//! their executable counterparts.

use vstd::prelude::*;

verus! {

use vstd::string::StringExecFns;

/// The characters of `pat` occur in `s` starting at position `i`.
pub open spec fn occurs_at(s: Seq<char>, pat: Seq<char>, i: int) -> bool {
    &&& 0 <= i
    &&& i + pat.len() <= s.len()
    &&& forall|k: int| 0 <= k < pat.len() ==> s[i + k] == pat[k]
}

/// `pat` occurs somewhere in `s`.
pub open spec fn has_sub(s: Seq<char>, pat: Seq<char>) -> bool {
    exists|i: int| occurs_at(s, pat, i)
}

/// `s` begins with `pat`.
pub open spec fn has_prefix(s: Seq<char>, pat: Seq<char>) -> bool {
    occurs_at(s, pat, 0)
}

/// `s` ends with `pat`.
pub open spec fn has_suffix(s: Seq<char>, pat: Seq<char>) -> bool {
    occurs_at(s, pat, s.len() - pat.len())
}

/// The characters of a string slice, in order.
pub fn chars_of(s: &str) -> (v: Vec<char>)
    ensures
        v@ == s@,
{
    let n = s.unicode_len();
    let mut v: Vec<char> = Vec::new();
    let mut i: usize = 0;
    while i < n
        invariant
            n == s@.len(),
            i <= n,
            v@ == s@.subrange(0, i as int),
        decreases n - i,
    {
        let c = s.get_char(i);
        v.push(c);
        proof {
            assert(v@ =~= s@.subrange(0, i + 1));
        }
        i = i + 1;
    }
    proof {
        assert(v@ =~= s@);
    }
    v
}

/// Relies on `String`'s `FromIterator<char>` implementation: collecting
/// characters yields the string made of exactly those characters in order.
#[verifier::external_body]
pub fn string_from_chars(v: &Vec<char>) -> (s: String)
    ensures
        s@ == v@,
{
    v.iter().collect()
}

/// Whether `pat` occurs in `v` at position `i`.
pub fn occurs_at_exec(v: &Vec<char>, pat: &Vec<char>, i: usize) -> (r: bool)
    requires
        i + pat@.len() <= v@.len(),
    ensures
        r == occurs_at(v@, pat@, i as int),
{
    let n = v.len();
    let m = pat.len();
    let mut k: usize = 0;
    while k < m
        invariant
            n == v@.len(),
            m == pat@.len(),
            i + m <= n,
            k <= m,
            forall|j: int| 0 <= j < k ==> v@[i + j] == pat@[j],
        decreases m - k,
    {
        if v[i + k] != pat[k] {
            return false;
        }
        k = k + 1;
    }
    true
}

/// Whether `pat` occurs anywhere in `v`.
pub fn has_sub_exec(v: &Vec<char>, pat: &Vec<char>) -> (r: bool)
    ensures
        r == has_sub(v@, pat@),
{
    let n = v.len();
    let m = pat.len();
    if m > n {
        proof {
            assert(forall|i: int| !occurs_at(v@, pat@, i));
        }
        return false;
    }
    let mut i: usize = 0;
    while i <= n - m
        invariant
            n == v@.len(),
            m == pat@.len(),
            m <= n,
            i <= n - m + 1,
            forall|j: int| 0 <= j < i ==> !occurs_at(v@, pat@, j),
        decreases n + 1 - i,
    {
        if occurs_at_exec(v, pat, i) {
            return true;
        }
        i = i + 1;
    }
    proof {
        assert(forall|j: int| occurs_at(v@, pat@, j) ==> 0 <= j <= n - m);
    }
    false
}

/// Whether `v` ends with `pat`.
pub fn has_suffix_exec(v: &Vec<char>, pat: &Vec<char>) -> (r: bool)
    ensures
        r == has_suffix(v@, pat@),
{
    let n = v.len();
    let m = pat.len();
    if m > n {
        return false;
    }
    occurs_at_exec(v, pat, n - m)
}

/// Whether the string `s` contains the string `pat`.
pub fn str_has_sub(s: &str, pat: &str) -> (r: bool)
    ensures
        r == has_sub(s@, pat@),
{
    let v = chars_of(s);
    let p = chars_of(pat);
    has_sub_exec(&v, &p)
}

/// Whether `v` begins with `pat`.
pub fn has_prefix_exec(v: &Vec<char>, pat: &Vec<char>) -> (r: bool)
    ensures
        r == has_prefix(v@, pat@),
{
    let n = v.len();
    let m = pat.len();
    if m > n {
        return false;
    }
    occurs_at_exec(v, pat, 0)
}

/// Whether the string `s` begins with the string `pat`.
pub fn str_has_prefix(s: &str, pat: &str) -> (r: bool)
    ensures
        r == has_prefix(s@, pat@),
{
    let v = chars_of(s);
    let p = chars_of(pat);
    has_prefix_exec(&v, &p)
}

/// Whether the string `s` ends with the string `pat`.
pub fn str_has_suffix(s: &str, pat: &str) -> (r: bool)
    ensures
        r == has_suffix(s@, pat@),
{
    let v = chars_of(s);
    let p = chars_of(pat);
    has_suffix_exec(&v, &p)
}

/// Whether two character vectors hold the same characters.
pub fn chars_eq(a: &Vec<char>, b: &Vec<char>) -> (r: bool)
    ensures
        r == (a@ == b@),
{
    if a.len() != b.len() {
        return false;
    }
    let n = a.len();
    let mut i: usize = 0;
    while i < n
        invariant
            n == a@.len(),
            n == b@.len(),
            i <= n,
            forall|j: int| 0 <= j < i ==> a@[j] == b@[j],
        decreases n - i,
    {
        if a[i] != b[i] {
            return false;
        }
        i = i + 1;
    }
    proof {
        assert(a@ =~= b@);
    }
    true
}

/// Whether two string slices hold the same characters.
pub fn str_eq(a: &str, b: &str) -> (r: bool)
    ensures
        r == (a@ == b@),
{
    let va = chars_of(a);
    let vb = chars_of(b);
    chars_eq(&va, &vb)
}

/// The concatenation of a parent path, a separator, and a child name.
pub open spec fn spec_child_path(parent: Seq<char>, name: Seq<char>) -> Seq<char> {
    parent + seq!['/'] + name
}

/// Builds the path of an entry called `name` inside the folder at `parent`.
pub fn child_path(parent: &str, name: &str) -> (r: String)
    ensures
        r@ == spec_child_path(parent@, name@),
{
    let mut s = String::new();
    s.append(parent);
    s.append("/");
    s.append(name);
    proof {
        reveal_strlit("/");
        assert(s@ =~= spec_child_path(parent@, name@));
    }
    s
}

} // verus!
