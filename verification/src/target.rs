//! Classification of a reference's raw target text.
//!
//! A raw target is split into an optional document-path component and an
//! optional anchor component at the first fragment marker. A target with a
//! URL scheme or protocol-relative prefix is out of scope and never
//! validated; a target with a fragment marker but no anchor identifier, or
//! an empty target, is malformed.

use vstd::prelude::*;
use crate::bytes::bytes_eq;
use vstd::slice::{slice_subrange, slice_to_vec};

verus! {

/// Where a reference points, at the spec level.
pub enum TargetSpec {
    /// An external URL or protocol-relative target: never validated.
    OutOfScope,
    /// `#anchor` within the same document.
    SameDocAnchor { anchor: Seq<u8> },
    /// A document path with no anchor.
    PathOnly { path: Seq<u8> },
    /// A document path and an anchor within it.
    PathAnchor { path: Seq<u8>, anchor: Seq<u8> },
    /// Syntactically invalid: empty, or a fragment marker with no
    /// identifier.
    Malformed,
}

/// Where a reference points.
pub enum Target {
    OutOfScope,
    SameDocAnchor { anchor: Vec<u8> },
    PathOnly { path: Vec<u8> },
    PathAnchor { path: Vec<u8>, anchor: Vec<u8> },
    Malformed,
}

impl Target {
    /// The classification this value stands for.
    pub open spec fn view(&self) -> TargetSpec {
        match self {
            Target::OutOfScope => TargetSpec::OutOfScope,
            Target::SameDocAnchor { anchor } => TargetSpec::SameDocAnchor { anchor: anchor@ },
            Target::PathOnly { path } => TargetSpec::PathOnly { path: path@ },
            Target::PathAnchor { path, anchor } => TargetSpec::PathAnchor {
                path: path@,
                anchor: anchor@,
            },
            Target::Malformed => TargetSpec::Malformed,
        }
    }
}

/// An ASCII letter.
pub open spec fn is_alpha(c: u8) -> bool {
    (65 <= c <= 90) || (97 <= c <= 122)
}

/// A byte allowed inside a URL scheme after its first letter.
pub open spec fn is_scheme_char(c: u8) -> bool {
    crate::slug::is_alnum(c) || c == 43 || c == 45 || c == 46
}

/// The target names an external resource: it begins with a URL scheme
/// (letter, then letters, digits, `+`, `-` or `.`, then `:`) or with `//`.
pub open spec fn is_external(s: Seq<u8>) -> bool {
    ||| (s.len() >= 2 && s[0] == 47 && s[1] == 47)
    ||| exists|i: int|
        1 <= i < s.len() && #[trigger] s[i] == 58 && is_alpha(s[0]) && (forall|j: int|
            1 <= j < i ==> is_scheme_char(#[trigger] s[j]))
}

/// The index of the first `c` in `s`, or `s.len()` if there is none.
pub open spec fn idx_of(s: Seq<u8>, c: u8) -> int
    decreases s.len(),
{
    if s.len() == 0 {
        0
    } else if s.first() == c {
        0
    } else {
        1 + idx_of(s.drop_first(), c)
    }
}

/// `idx_of` answers the first-occurrence question.
pub proof fn lemma_idx_of(s: Seq<u8>, c: u8, k: int)
    requires
        0 <= k <= s.len(),
        forall|j: int| 0 <= j < k ==> s[j] != c,
        k == s.len() || s[k] == c,
    ensures
        idx_of(s, c) == k,
    decreases s.len(),
{
    if s.len() > 0 {
        if k == 0 {
        } else {
            let d = s.drop_first();
            assert(forall|j: int| 0 <= j < k - 1 ==> d[j] == s[j + 1] && d[j] != c);
            assert(k - 1 == d.len() || d[k - 1] == c);
            lemma_idx_of(d, c, k - 1);
        }
    }
}

/// How a raw target is classified.
pub open spec fn parse_target_spec(s: Seq<u8>) -> TargetSpec {
    if s.len() == 0 {
        TargetSpec::Malformed
    } else if is_external(s) {
        TargetSpec::OutOfScope
    } else if s[0] == 35 {
        if s.len() == 1 {
            TargetSpec::Malformed
        } else {
            TargetSpec::SameDocAnchor { anchor: s.skip(1) }
        }
    } else {
        let h = idx_of(s, 35);
        if h == s.len() {
            TargetSpec::PathOnly { path: s }
        } else if h == s.len() - 1 {
            TargetSpec::Malformed
        } else {
            TargetSpec::PathAnchor { path: s.take(h), anchor: s.skip(h + 1) }
        }
    }
}

/// Decide whether the target is external.
fn check_external(s: &[u8]) -> (r: bool)
    ensures
        r == is_external(s@),
{
    let n = s.len();
    if n >= 2 && s[0] == 47 && s[1] == 47 {
        return true;
    }
    if n == 0 || !((65 <= s[0] && s[0] <= 90) || (97 <= s[0] && s[0] <= 122)) {
        assert(!is_external(s@));
        return false;
    }
    let mut i: usize = 1;
    while i < n
        invariant
            1 <= i <= n,
            n == s@.len(),
            is_alpha(s@[0]),
            !(s@.len() >= 2 && s@[0] == 47 && s@[1] == 47),
            forall|j: int| 1 <= j < i ==> is_scheme_char(#[trigger] s@[j]) && s@[j] != 58,
        decreases n - i,
    {
        let c = s[i];
        if c == 58 {
            assert(is_external(s@));
            return true;
        }
        if !((48 <= c && c <= 57) || (65 <= c && c <= 90) || (97 <= c && c <= 122) || c == 43
            || c == 45 || c == 46) {
            proof {
                assert forall|k: int|
                    !(1 <= k < s@.len() && #[trigger] s@[k] == 58 && is_alpha(s@[0]) && (
                    forall|j: int| 1 <= j < k ==> is_scheme_char(#[trigger] s@[j]))) by {
                    if 1 <= k < s@.len() && s@[k] == 58 {
                        if k <= i {
                            assert(s@[k] != 58);
                        } else {
                            assert(!is_scheme_char(s@[i as int]));
                        }
                    }
                }
            }
            return false;
        }
        i += 1;
    }
    proof {
        assert forall|k: int|
            !(1 <= k < s@.len() && #[trigger] s@[k] == 58 && is_alpha(s@[0]) && (forall|j: int|
                1 <= j < k ==> is_scheme_char(#[trigger] s@[j]))) by {
            if 1 <= k < s@.len() && s@[k] == 58 {
                assert(s@[k] != 58);
            }
        }
    }
    false
}

/// Classify a raw target.
pub fn parse_target(s: &[u8]) -> (r: Target)
    ensures
        r@ == parse_target_spec(s@),
{
    let n = s.len();
    if n == 0 {
        return Target::Malformed;
    }
    if check_external(s) {
        return Target::OutOfScope;
    }
    if s[0] == 35 {
        if n == 1 {
            return Target::Malformed;
        }
        let anchor = slice_to_vec(slice_subrange(s, 1, n));
        assert(anchor@ =~= s@.skip(1));
        return Target::SameDocAnchor { anchor };
    }
    let mut h: usize = 0;
    while h < n && s[h] != 35
        invariant
            0 <= h <= n,
            n == s@.len(),
            forall|j: int| 0 <= j < h ==> s@[j] != 35,
        decreases n - h,
    {
        h += 1;
    }
    proof {
        lemma_idx_of(s@, 35, h as int);
    }
    if h == n {
        let path = slice_to_vec(s);
        return Target::PathOnly { path };
    }
    if h == n - 1 {
        return Target::Malformed;
    }
    let path = slice_to_vec(slice_subrange(s, 0, h));
    let anchor = slice_to_vec(slice_subrange(s, h + 1, n));
    assert(path@ =~= s@.take(h as int));
    assert(anchor@ =~= s@.skip(h + 1));
    Target::PathAnchor { path, anchor }
}

} // verus!
