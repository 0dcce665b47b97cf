//! Resolution of a reference's path against its document's location.
//!
//! A document is identified by a canonical path. A relative target path is
//! joined to the referencing document's directory; the joined path is then
//! normalized lexically, so that different spellings of the same document
//! yield one identity.

use vstd::prelude::*;
use vstd::slice::{slice_subrange, slice_to_vec};

verus! {

/// The directory prefix of a path: everything up to and including the last
/// separator, or empty when there is none.
pub open spec fn dirname(s: Seq<u8>) -> Seq<u8>
    decreases s.len(),
{
    if s.len() == 0 {
        s
    } else if s.last() == 47 {
        s
    } else {
        dirname(s.drop_last())
    }
}

/// The lexical normalization path_clean applies to a path string: a
/// function of the string alone.
pub uninterp spec fn cleaned(path: Seq<u8>) -> Seq<u8>;

/// Relies on path_clean::clean: a purely lexical path normalization,
/// depending on the path string alone.
#[verifier::external_body]
fn clean_path(path: &[u8]) -> (r: Vec<u8>)
    ensures
        r@ == cleaned(path@),
{
    let s = String::from_utf8_lossy(path).into_owned();
    path_clean::clean(s).to_string_lossy().into_owned().into_bytes()
}

/// What pathdiff computes: the target expressed relative to the base
/// directory, a function of the two path strings alone.
pub uninterp spec fn path_diff(target: Seq<u8>, base: Seq<u8>) -> Option<Seq<u8>>;

/// Relies on pathdiff::diff_paths: a purely lexical computation on the two
/// path strings.
#[verifier::external_body]
fn diff_paths(target: &[u8], base: &[u8]) -> (r: Option<Vec<u8>>)
    ensures
        (match r {
            Some(v) => path_diff(target@, base@) == Some(v@),
            None => path_diff(target@, base@) is None,
        }),
{
    pathdiff::diff_paths(
        String::from_utf8_lossy(target).into_owned(),
        String::from_utf8_lossy(base).into_owned(),
    ).map(|p| p.to_string_lossy().into_owned().into_bytes())
}

/// Return a path relative to the given working directory, or the path
/// itself when it cannot be expressed relative to it.
pub fn relative_path(target: &[u8], cwd: &[u8]) -> (r: Vec<u8>)
    ensures
        r@ == (match path_diff(target@, cwd@) {
            Some(s) => s,
            None => target@,
        }),
{
    match diff_paths(target, cwd) {
        Some(v) => v,
        None => slice_to_vec(target),
    }
}

/// The canonical identity a target path resolves to, from the referencing
/// document's identity: absolute targets stand alone, relative ones are
/// joined to the document's directory; either way the result is
/// normalized.
pub open spec fn resolved_spec(id: Seq<u8>, p: Seq<u8>) -> Seq<u8> {
    if p.len() > 0 && p[0] == 47 {
        cleaned(p)
    } else {
        cleaned(dirname(id) + p)
    }
}

/// Resolve a target path against the identity of the document holding the
/// reference.
pub fn resolve_ref_path(id: &[u8], p: &[u8]) -> (r: Vec<u8>)
    ensures
        r@ == resolved_spec(id@, p@),
{
    if p.len() > 0 && p[0] == 47 {
        return clean_path(p);
    }
    let n = id.len();
    let mut j: usize = n;
    proof {
        assert(id@.take(n as int) =~= id@);
    }
    while j > 0 && id[j - 1] != 47
        invariant
            0 <= j <= n,
            n == id@.len(),
            dirname(id@) == dirname(id@.take(j as int)),
        decreases j,
    {
        proof {
            let q = id@.take(j as int);
            assert(q.drop_last() =~= id@.take(j - 1));
            assert(q.last() == id@[j - 1]);
        }
        j -= 1;
    }
    proof {
        let q = id@.take(j as int);
        if j == 0 {
            assert(q.len() == 0);
            assert(dirname(id@) =~= Seq::<u8>::empty());
        } else {
            assert(q.last() == id@[j - 1]);
            assert(dirname(id@) == q);
        }
    }
    let mut joined: Vec<u8> = slice_to_vec(slice_subrange(id, 0, j));
    let ghost d = joined@;
    proof {
        assert(d =~= dirname(id@));
    }
    let m = p.len();
    let mut k: usize = 0;
    while k < m
        invariant
            k <= m,
            m == p@.len(),
            joined@ == d + p@.take(k as int),
        decreases m - k,
    {
        joined.push(p[k]);
        proof {
            assert(joined@ =~= d + p@.take(k + 1));
        }
        k += 1;
    }
    proof {
        assert(p@.take(m as int) =~= p@);
    }
    clean_path(joined.as_slice())
}

} // verus!
