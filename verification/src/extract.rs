//! Extraction of anchors and outbound references from an event stream.
//!
//! One traversal of a document's events collects, in order: the anchor
//! slugs assigned to its headings (text gathered between a heading's start
//! and end, slugs disambiguated per document), the labels its footnote
//! definitions declare, and every outbound reference candidate with its
//! raw target and byte offset.

use vstd::prelude::*;
use crate::events::MdEvent;
use crate::slug::{assigned_slug, slug_of, SlugTable};
use vstd::slice::slice_to_vec;

verus! {

/// An outbound reference candidate: raw target text, starting byte offset,
/// and whether it came from a footnote reference.
pub struct RawRef {
    pub target: Vec<u8>,
    pub offset: usize,
    pub footnote: bool,
}

/// A reference candidate at the spec level.
pub struct RefSpec {
    pub target: Seq<u8>,
    pub offset: int,
    pub footnote: bool,
}

impl RawRef {
    /// The candidate this value stands for.
    pub open spec fn view(&self) -> RefSpec {
        RefSpec { target: self.target@, offset: self.offset as int, footnote: self.footnote }
    }
}

/// The extractor's state after some prefix of the events.
pub struct ExtState {
    /// Anchors declared so far: heading slugs and footnote labels.
    pub anchors: Seq<Seq<u8>>,
    /// Base slugs of the headings seen so far, for disambiguation.
    pub bases: Seq<Seq<u8>>,
    /// Reference candidates seen so far.
    pub refs: Seq<RefSpec>,
    /// The text of the currently open heading, if one is open.
    pub heading: Option<Seq<u8>>,
}

/// The extractor's starting state.
pub open spec fn ext_init() -> ExtState {
    ExtState {
        anchors: Seq::empty(),
        bases: Seq::empty(),
        refs: Seq::empty(),
        heading: None,
    }
}

/// How one event advances the extractor.
pub open spec fn ext_step(st: ExtState, e: MdEvent) -> ExtState {
    match e {
        MdEvent::HeadingStart => ExtState { heading: Some(Seq::empty()), ..st },
        MdEvent::Text { text } => match st.heading {
            Some(h) => ExtState { heading: Some(h + text@), ..st },
            None => st,
        },
        MdEvent::HeadingEnd => match st.heading {
            Some(h) => ExtState {
                anchors: st.anchors.push(assigned_slug(st.bases, h)),
                bases: st.bases.push(slug_of(h)),
                heading: None,
                ..st
            },
            None => st,
        },
        MdEvent::LinkStart { dest, offset } => ExtState {
            refs: st.refs.push(
                RefSpec { target: dest@, offset: offset as int, footnote: false },
            ),
            ..st
        },
        MdEvent::FootnoteRef { label, offset } => ExtState {
            refs: st.refs.push(RefSpec { target: label@, offset: offset as int, footnote: true }),
            ..st
        },
        MdEvent::FootnoteDef { label } => ExtState { anchors: st.anchors.push(label@), ..st },
        MdEvent::Other => st,
    }
}

/// The extractor's state after the first `i` events.
pub open spec fn ext_fold(events: Seq<MdEvent>, i: int) -> ExtState
    decreases i,
{
    if i <= 0 {
        ext_init()
    } else {
        ext_step(ext_fold(events, i - 1), events[i - 1])
    }
}

/// What a whole event stream extracts to.
pub open spec fn extraction_of(events: Seq<MdEvent>) -> ExtState {
    ext_fold(events, events.len() as int)
}

/// A document's extracted anchors and reference candidates.
pub struct Extraction {
    pub anchors: Vec<Vec<u8>>,
    pub refs: Vec<RawRef>,
}

/// A list of byte strings as the sequence it stands for.
pub open spec fn anchors_view(v: Seq<Vec<u8>>) -> Seq<Seq<u8>> {
    v.map_values(|x: Vec<u8>| x@)
}

/// A list of reference candidates as the sequence it stands for.
pub open spec fn refs_view(v: Seq<RawRef>) -> Seq<RefSpec> {
    v.map_values(|x: RawRef| x@)
}

/// Extract anchors and reference candidates from a document's events.
pub fn extract(events: &Vec<MdEvent>) -> (r: Extraction)
    ensures
        anchors_view(r.anchors@) == extraction_of(events@).anchors,
        refs_view(r.refs@) == extraction_of(events@).refs,
{
    let mut anchors: Vec<Vec<u8>> = Vec::new();
    let mut table = SlugTable::new();
    let mut refs: Vec<RawRef> = Vec::new();
    let mut has_heading: bool = false;
    let mut hbuf: Vec<u8> = Vec::new();
    let n = events.len();
    let mut i: usize = 0;
    proof {
        assert(anchors_view(anchors@) =~= ext_fold(events@, 0).anchors);
        assert(refs_view(refs@) =~= ext_fold(events@, 0).refs);
    }
    while i < n
        invariant
            i <= n,
            n == events@.len(),
            anchors_view(anchors@) == ext_fold(events@, i as int).anchors,
            table@ == ext_fold(events@, i as int).bases,
            refs_view(refs@) == ext_fold(events@, i as int).refs,
            ext_fold(events@, i as int).heading == if has_heading {
                Some(hbuf@)
            } else {
                None::<Seq<u8>>
            },
        decreases n - i,
    {
        let ghost st = ext_fold(events@, i as int);
        let ghost st2 = ext_fold(events@, i + 1);
        proof {
            assert(st2 == ext_step(st, events@[i as int]));
        }
        let e = &events[i];
        match e {
            MdEvent::HeadingStart => {
                has_heading = true;
                hbuf = Vec::new();
                proof {
                    assert(st2.heading == Some(hbuf@));
                    assert(st2.anchors == st.anchors);
                    assert(st2.bases == st.bases);
                    assert(st2.refs == st.refs);
                }
            },
            MdEvent::Text { text } => {
                if has_heading {
                    let ghost h0 = hbuf@;
                    let m = text.len();
                    let mut k: usize = 0;
                    while k < m
                        invariant
                            k <= m,
                            m == text@.len(),
                            hbuf@ == h0 + text@.take(k as int),
                        decreases m - k,
                    {
                        hbuf.push(text[k]);
                        proof {
                            assert(hbuf@ =~= h0 + text@.take(k + 1));
                        }
                        k += 1;
                    }
                    proof {
                        assert(text@.take(m as int) =~= text@);
                        assert(st2.heading == Some(h0 + text@));
                    }
                }
            },
            MdEvent::HeadingEnd => {
                if has_heading {
                    let slug = table.assign(hbuf.as_slice());
                    anchors.push(slug);
                    has_heading = false;
                    hbuf = Vec::new();
                    proof {
                        assert(anchors_view(anchors@) =~= st2.anchors);
                    }
                }
            },
            MdEvent::LinkStart { dest, offset } => {
                let target = slice_to_vec(dest.as_slice());
                refs.push(RawRef { target, offset: *offset, footnote: false });
                proof {
                    assert(refs_view(refs@) =~= st2.refs);
                }
            },
            MdEvent::FootnoteRef { label, offset } => {
                let target = slice_to_vec(label.as_slice());
                refs.push(RawRef { target, offset: *offset, footnote: true });
                proof {
                    assert(refs_view(refs@) =~= st2.refs);
                }
            },
            MdEvent::FootnoteDef { label } => {
                let a = slice_to_vec(label.as_slice());
                anchors.push(a);
                proof {
                    assert(anchors_view(anchors@) =~= st2.anchors);
                }
            },
            MdEvent::Other => {},
        }
        i += 1;
    }
    Extraction { anchors, refs }
}

} // verus!
