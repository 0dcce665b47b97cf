use mdrefcheck::diag::DiagKind;
use mdrefcheck::events::MdEvent;
use mdrefcheck::extract::extract;
use mdrefcheck::index::{AnchorIndex, Doc, IndexEntry};
use mdrefcheck::validate::validate_corpus;

fn doc(id: &str, content: &str) -> Doc {
    Doc { id: id.as_bytes().to_vec(), content: Some(content.to_string()) }
}

#[test]
fn self_anchor_resolution() {
    let docs = vec![doc("/a.md", "# Usage\n\n[ok](#usage)\n[bad](#usge)\n")];
    let extra: Vec<Vec<u8>> = Vec::new();
    let diags = validate_corpus(&docs, &extra);
    assert_eq!(diags.len(), 1);
    assert!(matches!(diags[0].kind, DiagKind::BrokenAnchorReference));
    assert_eq!(diags[0].path, b"/a.md".to_vec());
    assert_eq!(diags[0].line, 4);
    assert_eq!(diags[0].col, 1);
    assert_eq!(diags[0].target, b"#usge".to_vec());
}

#[test]
fn cross_document_resolution() {
    let docs = vec![
        doc("/a.md", "[x](b.md#intro)\n"),
        doc("/b.md", "# Intro\n"),
    ];
    let extra: Vec<Vec<u8>> = Vec::new();
    let diags = validate_corpus(&docs, &extra);
    assert_eq!(diags.len(), 0);

    let docs2 = vec![
        doc("/a.md", "[x](b.md#intro)\n"),
        doc("/b.md", "# Introduction\n"),
    ];
    let diags2 = validate_corpus(&docs2, &extra);
    assert_eq!(diags2.len(), 1);
    assert!(matches!(diags2[0].kind, DiagKind::BrokenAnchorReference));
    assert_eq!(diags2[0].path, b"/a.md".to_vec());
}

#[test]
fn missing_file_reported_once_per_reference() {
    let docs = vec![doc("/a.md", "[x](missing.md)\n[y](missing.md#x)\n")];
    let extra: Vec<Vec<u8>> = Vec::new();
    let diags = validate_corpus(&docs, &extra);
    assert_eq!(diags.len(), 2);
    assert!(matches!(diags[0].kind, DiagKind::BrokenFileReference));
    assert!(matches!(diags[1].kind, DiagKind::BrokenFileReference));
    assert_eq!(diags[0].target, b"missing.md".to_vec());
    assert_eq!(diags[1].target, b"missing.md#x".to_vec());
}

#[test]
fn cycle_safety() {
    let docs = vec![
        doc("/a.md", "[to b](b.md#bx)\n"),
        doc("/b.md", "[to a](a.md#missing)\n\n# Bx\n"),
    ];
    let extra: Vec<Vec<u8>> = Vec::new();
    let diags = validate_corpus(&docs, &extra);
    assert_eq!(diags.len(), 1);
    assert_eq!(diags[0].path, b"/b.md".to_vec());
    assert!(matches!(diags[0].kind, DiagKind::BrokenAnchorReference));
}

#[test]
fn at_most_once_computation() {
    let docs = vec![
        doc("/t.md", "# X\n"),
        doc("/a.md", "[r](t.md#x)\n"),
        doc("/b.md", "[r](t.md#x)\n"),
    ];
    let extra: Vec<Vec<u8>> = Vec::new();
    let mut idx = AnchorIndex::new();
    let e1 = idx.resolve(&docs, &extra, b"/t.md");
    let e2 = idx.resolve(&docs, &extra, b"/t.md");
    let e3 = idx.resolve(&docs, &extra, b"/t.md");
    assert_eq!(idx.computations(), 1);
    let a1 = match e1 {
        IndexEntry::Computed(a) => a,
        IndexEntry::NotFound => panic!("target document must be found"),
    };
    let a2 = match e2 {
        IndexEntry::Computed(a) => a,
        IndexEntry::NotFound => panic!("target document must be found"),
    };
    let a3 = match e3 {
        IndexEntry::Computed(a) => a,
        IndexEntry::NotFound => panic!("target document must be found"),
    };
    assert_eq!(a1, vec![b"x".to_vec()]);
    assert_eq!(a1, a2);
    assert_eq!(a1, a3);
}

#[test]
fn missing_path_cached_and_terminal() {
    let docs = vec![doc("/t.md", "# X\n")];
    let extra: Vec<Vec<u8>> = Vec::new();
    let mut idx = AnchorIndex::new();
    let e1 = idx.resolve(&docs, &extra, b"/nope.md");
    let e2 = idx.resolve(&docs, &extra, b"/nope.md");
    assert!(matches!(e1, IndexEntry::NotFound));
    assert!(matches!(e2, IndexEntry::NotFound));
    assert_eq!(idx.computations(), 1);
}

#[test]
fn out_of_scope_targets_silent() {
    let docs = vec![doc(
        "/a.md",
        "[x](https://example.com/page#frag)\n[y](mailto:a@b.c)\n[z](//cdn.example.com/x)\n",
    )];
    let extra: Vec<Vec<u8>> = Vec::new();
    let diags = validate_corpus(&docs, &extra);
    assert_eq!(diags.len(), 0);
}

#[test]
fn determinism_and_order() {
    let docs = vec![
        doc("/b.md", "[one](#gone)\n[two](zzz.md)\n"),
        doc("/a.md", "[three](#also-gone)\n"),
    ];
    let extra: Vec<Vec<u8>> = Vec::new();
    let d1 = validate_corpus(&docs, &extra);
    let d2 = validate_corpus(&docs, &extra);
    assert_eq!(d1.len(), 3);
    assert_eq!(d1.len(), d2.len());
    for (x, y) in d1.iter().zip(d2.iter()) {
        assert_eq!(x.path, y.path);
        assert_eq!(x.line, y.line);
        assert_eq!(x.col, y.col);
        assert_eq!(x.kind, y.kind);
        assert_eq!(x.target, y.target);
    }
    // sorted by (path, line, col)
    assert_eq!(d1[0].path, b"/a.md".to_vec());
    assert_eq!(d1[1].path, b"/b.md".to_vec());
    assert_eq!(d1[2].path, b"/b.md".to_vec());
    assert!(d1[1].line < d1[2].line);
}

#[test]
fn malformed_references_recovered_locally() {
    let docs = vec![doc("/a.md", "[x](b.md#)\n[y](#)\n[z](#fine)\n\n# Fine\n")];
    let extra: Vec<Vec<u8>> = Vec::new();
    let diags = validate_corpus(&docs, &extra);
    assert_eq!(diags.len(), 2);
    assert!(matches!(diags[0].kind, DiagKind::MalformedReference));
    assert!(matches!(diags[1].kind, DiagKind::MalformedReference));
}

#[test]
fn unreadable_document_reported() {
    let docs = vec![Doc { id: b"/u.md".to_vec(), content: None }];
    let extra: Vec<Vec<u8>> = Vec::new();
    let diags = validate_corpus(&docs, &extra);
    assert_eq!(diags.len(), 1);
    assert!(matches!(diags[0].kind, DiagKind::UnreadableDocument));
    assert_eq!(diags[0].path, b"/u.md".to_vec());
    assert_eq!(diags[0].line, 1);
    assert_eq!(diags[0].col, 1);
}

#[test]
fn footnote_references_checked() {
    let docs = vec![doc("/a.md", "Hi[^1].\n\n[^1]: a note\n")];
    let extra: Vec<Vec<u8>> = Vec::new();
    let diags = validate_corpus(&docs, &extra);
    assert_eq!(diags.len(), 0);
}

#[test]
fn footnote_extraction() {
    let evs = vec![
        MdEvent::FootnoteDef { label: b"1".to_vec() },
        MdEvent::FootnoteRef { label: b"2".to_vec(), offset: 3 },
    ];
    let ext = extract(&evs);
    assert_eq!(ext.anchors, vec![b"1".to_vec()]);
    assert_eq!(ext.refs.len(), 1);
    assert!(ext.refs[0].footnote);
    assert_eq!(ext.refs[0].target, b"2".to_vec());
    assert_eq!(ext.refs[0].offset, 3);
}

#[test]
fn wikilink_target_checked() {
    let docs = vec![doc("/a.md", "[[Other Page]]\n")];
    let extra: Vec<Vec<u8>> = Vec::new();
    let diags = validate_corpus(&docs, &extra);
    assert_eq!(diags.len(), 1);
    assert!(matches!(diags[0].kind, DiagKind::BrokenFileReference));
}

#[test]
fn dotted_paths_normalized() {
    let docs = vec![
        doc("/a.md", "[x](sub/../b.md#intro)\n"),
        doc("/b.md", "# Intro\n"),
    ];
    let extra: Vec<Vec<u8>> = Vec::new();
    let diags = validate_corpus(&docs, &extra);
    assert_eq!(diags.len(), 0);
}

#[test]
fn bare_file_targets_checked_for_existence_only() {
    let docs = vec![doc("/a.md", "[x](data.txt)\n[y](data.txt#frag)\n")];
    let extra = vec![b"/data.txt".to_vec()];
    let diags = validate_corpus(&docs, &extra);
    assert_eq!(diags.len(), 1);
    assert!(matches!(diags[0].kind, DiagKind::BrokenAnchorReference));
    assert_eq!(diags[0].target, b"data.txt#frag".to_vec());
}

#[test]
fn duplicate_headings_addressable() {
    let docs = vec![doc("/a.md", "# Setup\n\n# Setup\n\n[x](#setup-1)\n[y](#setup)\n")];
    let extra: Vec<Vec<u8>> = Vec::new();
    let diags = validate_corpus(&docs, &extra);
    assert_eq!(diags.len(), 0);
}
