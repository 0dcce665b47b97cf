//! Reference validation: the engine's entry point.
//!
//! Each document's reference candidates are checked one by one: out-of-scope
//! targets are skipped; malformed targets, paths that do not resolve within
//! the corpus, and anchors absent from the resolved document's anchor set
//! each yield one positioned diagnostic. The diagnostics of all documents
//! are then sorted by (path, line, column), stably, into one deterministic
//! sequence.

use vstd::prelude::*;
use crate::diag::{
    diags_sorted, diags_view, sort_diags, sort_spec, DiagKind, DiagSpec, Diagnostic,
};
use crate::events::{event_in_bounds, md_events, parse_events, MdEvent};
use crate::extract::{anchors_view, ext_fold, extract, extraction_of, refs_view, RefSpec};
use crate::index::{
    contains_bytes, docs_view, entry_of, listed, AnchorIndex, Doc, DocSpec, EntrySpec,
    IndexEntry,
};
use crate::paths::{resolve_ref_path, resolved_spec};
use crate::position::{
    compute_line_starts, lemma_line_starts_wf, line_col_of, line_starts_of,
    offset_to_line_col, starts_view, wf_starts,
};
use crate::target::{parse_target, parse_target_spec, Target, TargetSpec};
use vstd::slice::slice_to_vec;
use vstd::string::StringSliceAdditionalSpecFns;
use vstd::utf8::encode_utf8;

verus! {

/// Build one finding.
pub open spec fn mk_diag(
    id: Seq<u8>,
    line: int,
    col: int,
    kind: DiagKind,
    target: Seq<u8>,
) -> DiagSpec {
    DiagSpec { path: id, line: line, col: col, kind: kind, target: target }
}

/// The findings one reference candidate yields: none when it resolves or
/// is out of scope, exactly one otherwise.
pub open spec fn ref_diag(
    id: Seq<u8>,
    starts: Seq<int>,
    anchors: Seq<Seq<u8>>,
    docs: Seq<DocSpec>,
    extra: Seq<Seq<u8>>,
    r: RefSpec,
) -> Seq<DiagSpec> {
    let line = line_col_of(starts, r.offset).0;
    let col = line_col_of(starts, r.offset).1;
    if r.footnote {
        if listed(anchors, r.target) {
            Seq::empty()
        } else {
            seq![mk_diag(id, line, col, DiagKind::BrokenAnchorReference, r.target)]
        }
    } else {
        match parse_target_spec(r.target) {
            TargetSpec::Malformed => seq![
                mk_diag(id, line, col, DiagKind::MalformedReference, r.target),
            ],
            TargetSpec::OutOfScope => Seq::empty(),
            TargetSpec::SameDocAnchor { anchor } => if listed(anchors, anchor) {
                Seq::empty()
            } else {
                seq![mk_diag(id, line, col, DiagKind::BrokenAnchorReference, r.target)]
            },
            TargetSpec::PathOnly { path } => match entry_of(
                docs,
                extra,
                resolved_spec(id, path),
            ) {
                EntrySpec::NotFound => seq![
                    mk_diag(id, line, col, DiagKind::BrokenFileReference, r.target),
                ],
                EntrySpec::Computed(aset) => Seq::empty(),
            },
            TargetSpec::PathAnchor { path, anchor } => match entry_of(
                docs,
                extra,
                resolved_spec(id, path),
            ) {
                EntrySpec::NotFound => seq![
                    mk_diag(id, line, col, DiagKind::BrokenFileReference, r.target),
                ],
                EntrySpec::Computed(aset) => if listed(aset, anchor) {
                    Seq::empty()
                } else {
                    seq![mk_diag(id, line, col, DiagKind::BrokenAnchorReference, r.target)]
                },
            },
        }
    }
}

/// The findings of the first `i` reference candidates, in order.
pub open spec fn refs_diags(
    id: Seq<u8>,
    starts: Seq<int>,
    anchors: Seq<Seq<u8>>,
    docs: Seq<DocSpec>,
    extra: Seq<Seq<u8>>,
    refs: Seq<RefSpec>,
    i: int,
) -> Seq<DiagSpec>
    decreases i,
{
    if i <= 0 {
        Seq::empty()
    } else {
        refs_diags(id, starts, anchors, docs, extra, refs, i - 1) + ref_diag(
            id,
            starts,
            anchors,
            docs,
            extra,
            refs[i - 1],
        )
    }
}

/// The findings one document yields: a single unreadable-document finding
/// when its text could not be read, else the findings of its references.
pub open spec fn doc_diags(doc: DocSpec, docs: Seq<DocSpec>, extra: Seq<Seq<u8>>) -> Seq<
    DiagSpec,
> {
    match doc.content {
        None => seq![mk_diag(doc.id, 1, 1, DiagKind::UnreadableDocument, Seq::empty())],
        Some(text) => {
            let ext = extraction_of(md_events(text));
            let starts = line_starts_of(encode_utf8(text));
            refs_diags(doc.id, starts, ext.anchors, docs, extra, ext.refs, ext.refs.len() as int)
        },
    }
}

/// The findings of the first `i` documents, in document order.
pub open spec fn corpus_diags(docs: Seq<DocSpec>, extra: Seq<Seq<u8>>, i: int) -> Seq<DiagSpec>
    decreases i,
{
    if i <= 0 {
        Seq::empty()
    } else {
        corpus_diags(docs, extra, i - 1) + doc_diags(docs[i - 1], docs, extra)
    }
}

/// Everything a corpus run reports, in its deterministic order.
pub open spec fn validate_corpus_spec(docs: Seq<DocSpec>, extra: Seq<Seq<u8>>) -> Seq<DiagSpec> {
    sort_spec(corpus_diags(docs, extra, docs.len() as int))
}

/// Every readable document's text fits the machine's coordinate range.
pub open spec fn docs_ok(docs: Seq<DocSpec>) -> bool {
    forall|i: int|
        0 <= i < docs.len() ==> match (#[trigger] docs[i]).content {
            Some(t) => encode_utf8(t).len() < usize::MAX,
            None => true,
        }
}

/// Canonical identities are distinct.
pub open spec fn ids_unique(docs: Seq<DocSpec>) -> bool {
    forall|i: int, j: int|
        0 <= i < j < docs.len() ==> (#[trigger] docs[i]).id != (#[trigger] docs[j]).id
}

proof fn lemma_refs_bounded(events: Seq<MdEvent>, n: int, i: int)
    requires
        forall|k: int| 0 <= k < events.len() ==> event_in_bounds(#[trigger] events[k], n),
        0 <= i <= events.len(),
    ensures
        forall|k: int|
            0 <= k < ext_fold(events, i).refs.len() ==> 0 <= (#[trigger] ext_fold(
                events,
                i,
            ).refs[k]).offset <= n,
    decreases i,
{
    if i > 0 {
        lemma_refs_bounded(events, n, i - 1);
        let st = ext_fold(events, i - 1);
        let st2 = ext_fold(events, i);
        assert(event_in_bounds(events[i - 1], n));
        match events[i - 1] {
            MdEvent::LinkStart { dest, offset } => {
                assert(forall|k: int|
                    0 <= k < st.refs.len() ==> st2.refs[k] == (#[trigger] st.refs[k]));
            },
            MdEvent::FootnoteRef { label, offset } => {
                assert(forall|k: int|
                    0 <= k < st.refs.len() ==> st2.refs[k] == (#[trigger] st.refs[k]));
            },
            _ => {
                assert(st2.refs == st.refs);
            },
        }
    }
}

/// Check one document's references, appending its findings in order and
/// keeping the index faithful.
#[verifier::loop_isolation(false)]
pub fn validate_document(
    di: usize,
    docs: &Vec<Doc>,
    extra: &Vec<Vec<u8>>,
    index: &mut AnchorIndex,
    out: &mut Vec<Diagnostic>,
)
    requires
        di < docs@.len(),
        docs_ok(docs_view(docs@)),
        ids_unique(docs_view(docs@)),
        old(index).wf(docs_view(docs@), anchors_view(extra@)),
    ensures
        final(index).wf(docs_view(docs@), anchors_view(extra@)),
        diags_view(final(out)@) == diags_view(old(out)@) + doc_diags(
            docs_view(docs@)[di as int],
            docs_view(docs@),
            anchors_view(extra@),
        ),
{
    let ghost dspec = docs_view(docs@)[di as int];
    let ghost o0 = diags_view(out@);
    proof {
        assert(dspec == docs@[di as int]@);
    }
    let doc = &docs[di];
    match &doc.content {
        None => {
            let d = Diagnostic {
                path: slice_to_vec(doc.id.as_slice()),
                line: 1,
                col: 1,
                kind: DiagKind::UnreadableDocument,
                target: Vec::new(),
            };
            out.push(d);
            proof {
                assert(diags_view(out@) =~= o0 + doc_diags(
                    dspec,
                    docs_view(docs@),
                    anchors_view(extra@),
                ));
            }
        },
        Some(text) => {
            let evs = parse_events(text.as_str());
            let ext = extract(&evs);
            let starts = compute_line_starts(text.as_str());
            let ghost tspec = text@;
            let ghost anchors = extraction_of(md_events(tspec)).anchors;
            let ghost refsspec = extraction_of(md_events(tspec)).refs;
            proof {
                assert(dspec.content == Some(tspec));
                assert(anchors_view(ext.anchors@) == anchors);
                assert(refs_view(ext.refs@) == refsspec);
                crate::index::lemma_find_self(docs_view(docs@), di as int);
                assert(entry_of(docs_view(docs@), anchors_view(extra@), dspec.id)
                    == EntrySpec::Computed(anchors));
                lemma_refs_bounded(evs@, encode_utf8(tspec).len() as int, evs@.len() as int);
                lemma_line_starts_wf(encode_utf8(tspec));
            }
            index.register(docs, extra, doc.id.as_slice(), &ext.anchors);
            let n = ext.refs.len();
            let mut k: usize = 0;
            while k < n
                invariant
                    k <= n,
                    index.wf(docs_view(docs@), anchors_view(extra@)),
                    diags_view(out@) == o0 + refs_diags(
                        dspec.id,
                        line_starts_of(encode_utf8(tspec)),
                        anchors,
                        docs_view(docs@),
                        anchors_view(extra@),
                        refsspec,
                        k as int,
                    ),
                decreases n - k,
            {
                let ghost sv = line_starts_of(encode_utf8(tspec));
                let ghost rs = refsspec[k as int];
                proof {
                    assert(refs_view(ext.refs@)[k as int] == ext.refs@[k as int]@);
                    assert(0 <= rs.offset <= encode_utf8(tspec).len());
                }
                let r = &ext.refs[k];
                let pos = offset_to_line_col(r.offset, starts.as_slice());
                let ghost base = o0 + refs_diags(
                    dspec.id,
                    sv,
                    anchors,
                    docs_view(docs@),
                    anchors_view(extra@),
                    refsspec,
                    k as int,
                );
                let ghost rd = ref_diag(
                    dspec.id,
                    sv,
                    anchors,
                    docs_view(docs@),
                    anchors_view(extra@),
                    rs,
                );
                if r.footnote {
                    if !contains_bytes(&ext.anchors, r.target.as_slice()) {
                        out.push(
                            Diagnostic {
                                path: slice_to_vec(doc.id.as_slice()),
                                line: pos.0,
                                col: pos.1,
                                kind: DiagKind::BrokenAnchorReference,
                                target: slice_to_vec(r.target.as_slice()),
                            },
                        );
                        proof {
                            assert(diags_view(out@) =~= base + rd);
                        }
                    }
                } else {
                    let t = parse_target(r.target.as_slice());
                    match t {
                        Target::Malformed => {
                            out.push(
                                Diagnostic {
                                    path: slice_to_vec(doc.id.as_slice()),
                                    line: pos.0,
                                    col: pos.1,
                                    kind: DiagKind::MalformedReference,
                                    target: slice_to_vec(r.target.as_slice()),
                                },
                            );
                            proof {
                                assert(diags_view(out@) =~= base + rd);
                            }
                        },
                        Target::OutOfScope => {},
                        Target::SameDocAnchor { anchor } => {
                            if !contains_bytes(&ext.anchors, anchor.as_slice()) {
                                out.push(
                                    Diagnostic {
                                        path: slice_to_vec(doc.id.as_slice()),
                                        line: pos.0,
                                        col: pos.1,
                                        kind: DiagKind::BrokenAnchorReference,
                                        target: slice_to_vec(r.target.as_slice()),
                                    },
                                );
                                proof {
                                    assert(diags_view(out@) =~= base + rd);
                                }
                            }
                        },
                        Target::PathOnly { path } => {
                            let rid = resolve_ref_path(doc.id.as_slice(), path.as_slice());
                            let e = index.resolve(docs, extra, rid.as_slice());
                            match e {
                                IndexEntry::NotFound => {
                                    out.push(
                                        Diagnostic {
                                            path: slice_to_vec(doc.id.as_slice()),
                                            line: pos.0,
                                            col: pos.1,
                                            kind: DiagKind::BrokenFileReference,
                                            target: slice_to_vec(r.target.as_slice()),
                                        },
                                    );
                                    proof {
                                        assert(diags_view(out@) =~= base + rd);
                                    }
                                },
                                IndexEntry::Computed(_) => {},
                            }
                        },
                        Target::PathAnchor { path, anchor } => {
                            let rid = resolve_ref_path(doc.id.as_slice(), path.as_slice());
                            let e = index.resolve(docs, extra, rid.as_slice());
                            match e {
                                IndexEntry::NotFound => {
                                    out.push(
                                        Diagnostic {
                                            path: slice_to_vec(doc.id.as_slice()),
                                            line: pos.0,
                                            col: pos.1,
                                            kind: DiagKind::BrokenFileReference,
                                            target: slice_to_vec(r.target.as_slice()),
                                        },
                                    );
                                    proof {
                                        assert(diags_view(out@) =~= base + rd);
                                    }
                                },
                                IndexEntry::Computed(aset) => {
                                    if !contains_bytes(&aset, anchor.as_slice()) {
                                        out.push(
                                            Diagnostic {
                                                path: slice_to_vec(doc.id.as_slice()),
                                                line: pos.0,
                                                col: pos.1,
                                                kind: DiagKind::BrokenAnchorReference,
                                                target: slice_to_vec(r.target.as_slice()),
                                            },
                                        );
                                        proof {
                                            assert(diags_view(out@) =~= base + rd);
                                        }
                                    }
                                },
                            }
                        },
                    }
                }
                proof {
                    assert(diags_view(out@) =~= base + rd);
                    assert(refs_diags(
                        dspec.id,
                        sv,
                        anchors,
                        docs_view(docs@),
                        anchors_view(extra@),
                        refsspec,
                        k + 1,
                    ) == refs_diags(
                        dspec.id,
                        sv,
                        anchors,
                        docs_view(docs@),
                        anchors_view(extra@),
                        refsspec,
                        k as int,
                    ) + rd);
                    assert(diags_view(out@) =~= o0 + refs_diags(
                        dspec.id,
                        sv,
                        anchors,
                        docs_view(docs@),
                        anchors_view(extra@),
                        refsspec,
                        k + 1,
                    ));
                }
                k += 1;
            }
            proof {
                assert(diags_view(out@) =~= o0 + doc_diags(
                    dspec,
                    docs_view(docs@),
                    anchors_view(extra@),
                ));
            }
        },
    }
}

/// Validate a whole corpus: the single entry point. The result is the
/// deterministically ordered sequence of every document's findings; it is
/// empty exactly when every reference resolves.
#[verifier::loop_isolation(false)]
pub fn validate_corpus(docs: &Vec<Doc>, extra: &Vec<Vec<u8>>) -> (r: Vec<Diagnostic>)
    requires
        docs_ok(docs_view(docs@)),
        ids_unique(docs_view(docs@)),
    ensures
        diags_view(r@) == validate_corpus_spec(docs_view(docs@), anchors_view(extra@)),
        diags_sorted(diags_view(r@)),
{
    let mut index = AnchorIndex::new();
    let mut out: Vec<Diagnostic> = Vec::new();
    let n = docs.len();
    let mut di: usize = 0;
    proof {
        assert(diags_view(out@) =~= corpus_diags(docs_view(docs@), anchors_view(extra@), 0));
    }
    while di < n
        invariant
            di <= n,
            index.wf(docs_view(docs@), anchors_view(extra@)),
            diags_view(out@) == corpus_diags(docs_view(docs@), anchors_view(extra@), di as int),
        decreases n - di,
    {
        validate_document(di, docs, extra, &mut index, &mut out);
        proof {
            assert(diags_view(out@) =~= corpus_diags(
                docs_view(docs@),
                anchors_view(extra@),
                di + 1,
            ));
        }
        di += 1;
    }
    sort_diags(&out)
}

/// The run is deterministic: equal corpora and equal file sets yield equal,
/// identically ordered findings, however the documents' checks are
/// scheduled.
pub proof fn lemma_validation_deterministic(
    docs1: Seq<DocSpec>,
    extra1: Seq<Seq<u8>>,
    docs2: Seq<DocSpec>,
    extra2: Seq<Seq<u8>>,
)
    requires
        docs1 == docs2,
        extra1 == extra2,
    ensures
        validate_corpus_spec(docs1, extra1) == validate_corpus_spec(docs2, extra2),
{
}

/// An out-of-scope target never produces a finding, whatever the corpus
/// holds.
pub proof fn lemma_out_of_scope_silent(
    id: Seq<u8>,
    starts: Seq<int>,
    anchors: Seq<Seq<u8>>,
    docs: Seq<DocSpec>,
    extra: Seq<Seq<u8>>,
    r: RefSpec,
)
    requires
        !r.footnote,
        parse_target_spec(r.target) == TargetSpec::OutOfScope,
    ensures
        ref_diag(id, starts, anchors, docs, extra, r) == Seq::<DiagSpec>::empty(),
{
}

/// A same-document reference to an anchor the document declares yields no
/// finding.
pub proof fn lemma_declared_anchor_silent(
    id: Seq<u8>,
    starts: Seq<int>,
    anchors: Seq<Seq<u8>>,
    docs: Seq<DocSpec>,
    extra: Seq<Seq<u8>>,
    r: RefSpec,
    anchor: Seq<u8>,
)
    requires
        !r.footnote,
        parse_target_spec(r.target) == (TargetSpec::SameDocAnchor { anchor }),
        listed(anchors, anchor),
    ensures
        ref_diag(id, starts, anchors, docs, extra, r) == Seq::<DiagSpec>::empty(),
{
}

/// A cross-document reference whose path resolves to a known document, and
/// whose anchor that document declares, yields no finding.
pub proof fn lemma_cross_document_resolved_silent(
    id: Seq<u8>,
    starts: Seq<int>,
    anchors: Seq<Seq<u8>>,
    docs: Seq<DocSpec>,
    extra: Seq<Seq<u8>>,
    r: RefSpec,
    path: Seq<u8>,
    anchor: Seq<u8>,
    aset: Seq<Seq<u8>>,
)
    requires
        !r.footnote,
        parse_target_spec(r.target) == (TargetSpec::PathAnchor { path, anchor }),
        entry_of(docs, extra, resolved_spec(id, path)) == EntrySpec::Computed(aset),
        listed(aset, anchor),
    ensures
        ref_diag(id, starts, anchors, docs, extra, r) == Seq::<DiagSpec>::empty(),
{
}

/// When the target path does not resolve, the reference yields exactly one
/// broken-file finding, whether or not it also names an anchor: the anchor
/// is not separately checked.
pub proof fn lemma_missing_file_single(
    id: Seq<u8>,
    starts: Seq<int>,
    anchors: Seq<Seq<u8>>,
    docs: Seq<DocSpec>,
    extra: Seq<Seq<u8>>,
    r: RefSpec,
    path: Seq<u8>,
    anchor: Seq<u8>,
)
    requires
        !r.footnote,
        parse_target_spec(r.target) == (TargetSpec::PathAnchor { path, anchor })
            || parse_target_spec(r.target) == (TargetSpec::PathOnly { path }),
        entry_of(docs, extra, resolved_spec(id, path)) == EntrySpec::NotFound,
    ensures
        ref_diag(id, starts, anchors, docs, extra, r) == seq![
            mk_diag(
                id,
                line_col_of(starts, r.offset).0,
                line_col_of(starts, r.offset).1,
                DiagKind::BrokenFileReference,
                r.target,
            ),
        ],
{
}

} // verus!
