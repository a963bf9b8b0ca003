//! Logical-path normalization for matching descriptors with images.
//!
//! A descriptor file and the image it describes live at the same stem and
//! differ only in directory-separator style and in the trailing
//! metadata-suffix or file extension. Both sides are therefore normalized
//! identically: every backslash becomes a forward slash and everything from
//! the first `.` on — the descriptor's metadata-suffix on one side, the
//! image's extension on the other — is cut off. Two resources refer to the
//! same asset exactly when their normalized paths are equal.

use vstd::prelude::*;
use vstd::string::StrSliceExecFns;
use vstd::string::StringExecFns;

verus! {

/// One character with its directory separator unified: backslash becomes
/// forward slash, everything else is unchanged.
pub open spec fn unify_separator(c: char) -> char {
    if c == '\\' {
        '/'
    } else {
        c
    }
}

/// The path with every backslash replaced by a forward slash.
pub open spec fn unify_separators(s: Seq<char>) -> Seq<char> {
    s.map_values(|c: char| unify_separator(c))
}

/// Index of the first `.` in `s`, or `s.len()` if there is none.
pub open spec fn first_dot(s: Seq<char>) -> int
    decreases s.len(),
{
    if s.len() == 0 {
        0
    } else if s[0] == '.' {
        0
    } else {
        1 + first_dot(s.subrange(1, s.len() as int))
    }
}

/// The normalized form of a logical path: separators unified, and the
/// metadata-suffix or extension — everything from the first `.` on — cut
/// off.
pub open spec fn normalized_path(s: Seq<char>) -> Seq<char> {
    unify_separators(s.take(first_dot(s)))
}

/// `first_dot` points at a `.` preceded by none.
pub proof fn lemma_first_dot(s: Seq<char>)
    ensures
        0 <= first_dot(s) <= s.len(),
        forall|j: int| 0 <= j < first_dot(s) ==> s[j] != '.',
        first_dot(s) < s.len() ==> s[first_dot(s)] == '.',
    decreases s.len(),
{
    if s.len() == 0 {
    } else if s[0] == '.' {
    } else {
        let t = s.subrange(1, s.len() as int);
        lemma_first_dot(t);
        assert forall|j: int| 0 <= j < first_dot(s) implies s[j] != '.' by {
            if j > 0 {
                assert(t[j - 1] == s[j]);
                assert(t[j - 1] != '.');
            }
        }
    }
}

/// Any index with no `.` before it, and a `.` (or the end) at it, is
/// `first_dot`.
pub proof fn lemma_first_dot_is(s: Seq<char>, i: int)
    requires
        0 <= i <= s.len(),
        forall|j: int| 0 <= j < i ==> s[j] != '.',
        i < s.len() ==> s[i] == '.',
    ensures
        first_dot(s) == i,
    decreases s.len(),
{
    if s.len() == 0 {
    } else if s[0] == '.' {
    } else {
        let t = s.subrange(1, s.len() as int);
        assert(forall|j: int| 0 <= j < i - 1 ==> t[j] == s[j + 1]);
        lemma_first_dot_is(t, i - 1);
    }
}

/// Unifying separators never makes or unmakes a `.`, so it leaves the first
/// dot where it was.
proof fn lemma_first_dot_unify(s: Seq<char>)
    ensures
        first_dot(unify_separators(s)) == first_dot(s),
{
    let u = unify_separators(s);
    lemma_first_dot(s);
    assert forall|j: int| 0 <= j < first_dot(s) implies u[j] != '.' by {
        assert(u[j] == unify_separator(s[j]));
    }
    lemma_first_dot_is(u, first_dot(s));
}

/// Unifying separators commutes with taking a prefix.
proof fn lemma_unify_take(s: Seq<char>, i: int)
    requires
        0 <= i <= s.len(),
    ensures
        unify_separators(s.take(i)) == unify_separators(s).take(i),
{
    assert(unify_separators(s.take(i)) =~= unify_separators(s).take(i));
}

/// Matching is invariant to directory-separator style: two paths that agree
/// once separators are unified — such as `a/b.png` and `a\b.png` — have the
/// same normalized path.
pub proof fn lemma_normalized_path_separator_invariant(s: Seq<char>, t: Seq<char>)
    requires
        unify_separators(s) == unify_separators(t),
    ensures
        normalized_path(s) == normalized_path(t),
{
    lemma_first_dot_unify(s);
    lemma_first_dot_unify(t);
    lemma_first_dot(s);
    lemma_first_dot(t);
    lemma_unify_take(s, first_dot(s));
    lemma_unify_take(t, first_dot(t));
}

/// Matching is invariant to the specific metadata-suffix or extension: a
/// dot-free stem followed by any suffix that starts with `.` normalizes to
/// what the stem alone normalizes to.
pub proof fn lemma_normalized_path_suffix_invariant(stem: Seq<char>, suffix: Seq<char>)
    requires
        forall|j: int| 0 <= j < stem.len() ==> stem[j] != '.',
        suffix.len() > 0 ==> suffix[0] == '.',
    ensures
        normalized_path(stem + suffix) == normalized_path(stem),
        normalized_path(stem) == unify_separators(stem),
{
    let s = stem + suffix;
    assert forall|j: int| 0 <= j < stem.len() implies s[j] != '.' by {
        assert(s[j] == stem[j]);
    }
    lemma_first_dot_is(s, stem.len() as int);
    lemma_first_dot_is(stem, stem.len() as int);
    assert(s.take(stem.len() as int) =~= stem);
    assert(stem.take(stem.len() as int) =~= stem);
}

/// Compute the normalized form of a path.
pub fn normalize_path(path: &str) -> (r: String)
    ensures
        r@ == normalized_path(path@),
{
    let n = path.unicode_len();
    let mut r = String::new();
    let mut i: usize = 0;
    while i < n
        invariant
            i <= n,
            n == path@.len(),
            forall|j: int| 0 <= j < i ==> path@[j] != '.',
            r@ == unify_separators(path@.take(i as int)),
        decreases n - i,
    {
        let c = path.get_char(i);
        if c == '.' {
            proof {
                lemma_first_dot_is(path@, i as int);
            }
            return r;
        }
        if c == '\\' {
            r.append("/");
            proof {
                reveal_strlit("/");
                assert(r@ =~= unify_separators(path@.take(i + 1)));
            }
        } else {
            let piece = path.substring_char(i, i + 1);
            r.append(piece);
            proof {
                assert(r@ =~= unify_separators(path@.take(i + 1)));
            }
        }
        i = i + 1;
    }
    proof {
        lemma_first_dot_is(path@, n as int);
        assert(path@.take(n as int) =~= path@);
    }
    r
}

} // verus!
