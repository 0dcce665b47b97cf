//! Diagnostics and their deterministic ordering.
//!
//! A diagnostic names the source document, a 1-based position, a kind and
//! the offending target text. Diagnostics are ordered by (path, line,
//! column); sorting is by insertion after equal keys, so equal keys keep
//! their order of production.

use vstd::prelude::*;
use crate::bytes::{bytes_eq, bytes_le, lemma_lex_le_total, lex_le};

verus! {

/// What a diagnostic reports.
#[derive(Clone, Copy, PartialEq, Eq, Structural, Debug)]
pub enum DiagKind {
    /// The target is syntactically invalid.
    MalformedReference,
    /// The target path does not resolve within the corpus.
    BrokenFileReference,
    /// The target document exists but lacks the named anchor.
    BrokenAnchorReference,
    /// A document in the requested file list could not be read.
    UnreadableDocument,
}

/// One finding, positioned in its source document.
pub struct Diagnostic {
    pub path: Vec<u8>,
    pub line: usize,
    pub col: usize,
    pub kind: DiagKind,
    pub target: Vec<u8>,
}

/// A finding at the spec level.
pub struct DiagSpec {
    pub path: Seq<u8>,
    pub line: int,
    pub col: int,
    pub kind: DiagKind,
    pub target: Seq<u8>,
}

impl Diagnostic {
    /// The finding this value stands for.
    pub open spec fn view(&self) -> DiagSpec {
        DiagSpec {
            path: self.path@,
            line: self.line as int,
            col: self.col as int,
            kind: self.kind,
            target: self.target@,
        }
    }
}

/// A list of diagnostics as the sequence it stands for.
pub open spec fn diags_view(v: Seq<Diagnostic>) -> Seq<DiagSpec> {
    v.map_values(|d: Diagnostic| d@)
}

/// The reporting order: by path, then line, then column.
pub open spec fn diag_le(a: DiagSpec, b: DiagSpec) -> bool {
    if a.path != b.path {
        lex_le(a.path, b.path)
    } else if a.line != b.line {
        a.line <= b.line
    } else {
        a.col <= b.col
    }
}

/// The order is total.
pub proof fn lemma_diag_le_total(a: DiagSpec, b: DiagSpec)
    ensures
        diag_le(a, b) || diag_le(b, a),
{
    lemma_lex_le_total(a.path, b.path);
}

/// Pairwise sortedness in the reporting order.
pub open spec fn diags_sorted(s: Seq<DiagSpec>) -> bool {
    forall|i: int, j: int| 0 <= i < j < s.len() ==> diag_le(#[trigger] s[i], #[trigger] s[j])
}

/// `d` inserted after every element it is not strictly before.
pub open spec fn insert_sorted(s: Seq<DiagSpec>, d: DiagSpec) -> Seq<DiagSpec>
    decreases s.len(),
{
    if s.len() == 0 {
        seq![d]
    } else if diag_le(s.first(), d) {
        seq![s.first()] + insert_sorted(s.drop_first(), d)
    } else {
        seq![d] + s
    }
}

/// The stable insertion sort of `s` in the reporting order.
pub open spec fn sort_spec(s: Seq<DiagSpec>) -> Seq<DiagSpec>
    decreases s.len(),
{
    if s.len() == 0 {
        Seq::empty()
    } else {
        insert_sorted(sort_spec(s.drop_last()), s.last())
    }
}

proof fn lemma_insert_at(s: Seq<DiagSpec>, d: DiagSpec, j: int)
    requires
        0 <= j <= s.len(),
        forall|k: int| 0 <= k < j ==> diag_le(#[trigger] s[k], d),
        j == s.len() || !diag_le(s[j], d),
    ensures
        insert_sorted(s, d) == s.insert(j, d),
    decreases s.len(),
{
    if s.len() == 0 {
        assert(insert_sorted(s, d) =~= s.insert(0, d));
    } else if j == 0 {
        assert(insert_sorted(s, d) =~= s.insert(0, d));
    } else {
        let t = s.drop_first();
        assert(forall|k: int| 0 <= k < j - 1 ==> t[k] == s[k + 1]);
        lemma_insert_at(t, d, j - 1);
        assert(insert_sorted(s, d) == seq![s.first()] + t.insert(j - 1, d));
        assert(seq![s.first()] + t.insert(j - 1, d) =~= s.insert(j, d));
    }
}

proof fn lemma_insert_sorted_sorted(s: Seq<DiagSpec>, d: DiagSpec, j: int)
    requires
        diags_sorted(s),
        0 <= j <= s.len(),
        forall|k: int| 0 <= k < j ==> diag_le(#[trigger] s[k], d),
        forall|k: int| j <= k < s.len() ==> diag_le(d, #[trigger] s[k]),
    ensures
        diags_sorted(s.insert(j, d)),
{
    let t = s.insert(j, d);
    assert forall|a: int, b: int| 0 <= a < b < t.len() implies diag_le(#[trigger] t[a], #[trigger] t[b]) by {
        if a < j {
            assert(t[a] == s[a]);
        }
        if b < j {
            assert(t[b] == s[b]);
        }
        if a > j {
            assert(t[a] == s[a - 1]);
        }
        if b > j {
            assert(t[b] == s[b - 1]);
        }
    }
}

/// Compare two diagnostics in the reporting order.
pub fn diag_le_exec(a: &Diagnostic, b: &Diagnostic) -> (r: bool)
    ensures
        r == diag_le(a@, b@),
{
    if !bytes_eq(a.path.as_slice(), b.path.as_slice()) {
        bytes_le(a.path.as_slice(), b.path.as_slice())
    } else if a.line != b.line {
        a.line <= b.line
    } else {
        a.col <= b.col
    }
}

fn diag_clone(d: &Diagnostic) -> (r: Diagnostic)
    ensures
        r@ == d@,
{
    Diagnostic {
        path: vstd::slice::slice_to_vec(d.path.as_slice()),
        line: d.line,
        col: d.col,
        kind: d.kind,
        target: vstd::slice::slice_to_vec(d.target.as_slice()),
    }
}

/// Sort diagnostics into the reporting order, stably.
pub fn sort_diags(v: &Vec<Diagnostic>) -> (r: Vec<Diagnostic>)
    ensures
        diags_view(r@) == sort_spec(diags_view(v@)),
        diags_sorted(diags_view(r@)),
{
    let mut out: Vec<Diagnostic> = Vec::new();
    let n = v.len();
    let mut i: usize = 0;
    proof {
        assert(diags_view(v@).take(0) =~= Seq::<DiagSpec>::empty());
        assert(diags_view(out@) =~= sort_spec(diags_view(v@).take(0)));
    }
    while i < n
        invariant
            i <= n,
            n == v@.len(),
            diags_view(out@) == sort_spec(diags_view(v@).take(i as int)),
            diags_sorted(diags_view(out@)),
        decreases n - i,
    {
        let d = diag_clone(&v[i]);
        let m = out.len();
        let mut j: usize = 0;
        while j < m && diag_le_exec(&out[j], &d)
            invariant
                j <= m,
                m == out@.len(),
                d@ == v@[i as int]@,
                forall|k: int| 0 <= k < j ==> diag_le(#[trigger] diags_view(out@)[k], d@),
            decreases m - j,
        {
            proof {
                assert(diags_view(out@)[j as int] == out@[j as int]@);
            }
            j += 1;
        }
        let ghost s0 = diags_view(out@);
        proof {
            assert(j == m || !diag_le(out@[j as int]@, d@));
            assert(j == s0.len() || !diag_le(s0[j as int], d@));
            lemma_insert_at(s0, d@, j as int);
            assert forall|k: int| j <= k < s0.len() implies diag_le(d@, #[trigger] s0[k]) by {
                if k == j {
                    lemma_diag_le_total(s0[k], d@);
                } else {
                    assert(diag_le(s0[j as int], s0[k]));
                    lemma_diag_le_total(s0[k], d@);
                    if !diag_le(d@, s0[k]) {
                        assert(diag_le(s0[k], d@));
                        lemma_diag_le_trans(s0[j as int], s0[k], d@);
                        assert(false);
                    }
                }
            }
            lemma_insert_sorted_sorted(s0, d@, j as int);
        }
        out.insert(j, d);
        proof {
            assert(diags_view(out@) =~= s0.insert(j as int, d@));
            let ghost p = diags_view(v@).take(i as int);
            let ghost q = diags_view(v@).take(i + 1);
            assert(q.drop_last() =~= p);
            assert(q.last() == diags_view(v@)[i as int]);
            assert(diags_view(v@)[i as int] == v@[i as int]@);
            assert(diags_view(out@) == insert_sorted(sort_spec(p), d@));
        }
        i += 1;
    }
    proof {
        assert(diags_view(v@).take(n as int) =~= diags_view(v@));
    }
    out
}

/// The order is transitive.
pub proof fn lemma_diag_le_trans(a: DiagSpec, b: DiagSpec, c: DiagSpec)
    requires
        diag_le(a, b),
        diag_le(b, c),
    ensures
        diag_le(a, c),
{
    if a.path != b.path && b.path != c.path {
        crate::bytes::lemma_lex_le_trans(a.path, b.path, c.path);
        if a.path == c.path {
            crate::bytes::lemma_lex_le_antisym(a.path, b.path);
        }
    }
}

} // verus!
