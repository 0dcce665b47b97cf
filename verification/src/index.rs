//! The anchor index: a lazily populated cache from canonical document
//! identity to that document's anchor set.
//!
//! An entry is computed at most once: a request for an identity already
//! cached returns the stored result and changes nothing; a request for a
//! new identity computes the entry, stores it, and counts one computation.
//! A path that does not resolve to a known document is cached as
//! `NotFound` and never retried. Each entry depends only on the target
//! document's own content, never on another entry, so requests can never
//! wait on one another in a cycle.

use vstd::prelude::*;
use crate::bytes::bytes_eq;
use crate::events::{md_events, parse_events};
use crate::extract::{anchors_view, extract, extraction_of};
use vstd::slice::slice_to_vec;

verus! {

/// A document handed to the engine: its canonical identity and its text,
/// or `None` when the text could not be read.
pub struct Doc {
    pub id: Vec<u8>,
    pub content: Option<String>,
}

/// A document at the spec level.
pub struct DocSpec {
    pub id: Seq<u8>,
    pub content: Option<Seq<char>>,
}

impl Doc {
    /// The document this value stands for.
    pub open spec fn view(&self) -> DocSpec {
        DocSpec {
            id: self.id@,
            content: match self.content {
                Some(s) => Some(s@),
                None => None,
            },
        }
    }
}

/// A document list as the sequence it stands for.
pub open spec fn docs_view(v: Seq<Doc>) -> Seq<DocSpec> {
    v.map_values(|d: Doc| d@)
}

/// Whether `x` is among the byte strings of `s`.
pub open spec fn listed(s: Seq<Seq<u8>>, x: Seq<u8>) -> bool {
    exists|j: int| 0 <= j < s.len() && s[j] == x
}

/// Decide membership in a list of byte strings.
pub fn contains_bytes(v: &Vec<Vec<u8>>, x: &[u8]) -> (r: bool)
    ensures
        r == listed(anchors_view(v@), x@),
{
    let n = v.len();
    let mut i: usize = 0;
    while i < n
        invariant
            i <= n,
            n == v@.len(),
            forall|j: int| 0 <= j < i ==> anchors_view(v@)[j] != x@,
        decreases n - i,
    {
        proof {
            assert(anchors_view(v@)[i as int] == v@[i as int]@);
        }
        if bytes_eq(v[i].as_slice(), x) {
            return true;
        }
        i += 1;
    }
    false
}

/// The anchor set of a document's content; an unreadable document
/// declares no anchors.
pub open spec fn doc_anchors(content: Option<Seq<char>>) -> Seq<Seq<u8>> {
    match content {
        Some(t) => extraction_of(md_events(t)).anchors,
        None => Seq::empty(),
    }
}

/// The first document of `docs` whose identity is `id`.
pub open spec fn corpus_find(docs: Seq<DocSpec>, id: Seq<u8>) -> Option<DocSpec>
    decreases docs.len(),
{
    if docs.len() == 0 {
        None
    } else if docs.first().id == id {
        Some(docs.first())
    } else {
        corpus_find(docs.drop_first(), id)
    }
}

proof fn lemma_corpus_find_at(docs: Seq<DocSpec>, id: Seq<u8>, k: int)
    requires
        0 <= k <= docs.len(),
        forall|j: int| 0 <= j < k ==> (#[trigger] docs[j]).id != id,
        k == docs.len() || docs[k].id == id,
    ensures
        corpus_find(docs, id) == if k == docs.len() {
            None::<DocSpec>
        } else {
            Some(docs[k])
        },
    decreases docs.len(),
{
    if docs.len() > 0 {
        if k == 0 {
        } else {
            let d = docs.drop_first();
            assert(forall|j: int| 0 <= j < k - 1 ==> d[j] == docs[j + 1]);
            lemma_corpus_find_at(d, id, k - 1);
        }
    }
}

/// In a corpus with distinct identities, lookup by a document's own
/// identity finds that document.
pub proof fn lemma_find_self(docs: Seq<DocSpec>, di: int)
    requires
        0 <= di < docs.len(),
        forall|i: int, j: int|
            0 <= i < j < docs.len() ==> (#[trigger] docs[i]).id != (#[trigger] docs[j]).id,
    ensures
        corpus_find(docs, docs[di].id) == Some(docs[di]),
{
    lemma_corpus_find_at(docs, docs[di].id, di);
}

/// Find the first document with identity `id`.
pub fn find_doc(docs: &Vec<Doc>, id: &[u8]) -> (r: Option<usize>)
    ensures
        match r {
            Some(di) => 0 <= di < docs@.len() && corpus_find(docs_view(docs@), id@) == Some(
                docs_view(docs@)[di as int],
            ),
            None => corpus_find(docs_view(docs@), id@) is None,
        },
{
    let n = docs.len();
    let mut i: usize = 0;
    while i < n
        invariant
            i <= n,
            n == docs@.len(),
            forall|j: int| 0 <= j < i ==> (#[trigger] docs_view(docs@)[j]).id != id@,
        decreases n - i,
    {
        proof {
            assert(docs_view(docs@)[i as int] == docs@[i as int]@);
        }
        if bytes_eq(docs[i].id.as_slice(), id) {
            proof {
                lemma_corpus_find_at(docs_view(docs@), id@, i as int);
            }
            return Some(i);
        }
        i += 1;
    }
    proof {
        lemma_corpus_find_at(docs_view(docs@), id@, n as int);
    }
    None
}

/// What the index records for an identity.
pub enum IndexEntry {
    /// The identity names a known document with these anchors.
    Computed(Vec<Vec<u8>>),
    /// The identity does not resolve within the corpus.
    NotFound,
}

/// An index record at the spec level.
pub enum EntrySpec {
    Computed(Seq<Seq<u8>>),
    NotFound,
}

/// The record an `IndexEntry` stands for.
pub open spec fn entry_view(e: IndexEntry) -> EntrySpec {
    match e {
        IndexEntry::Computed(v) => EntrySpec::Computed(anchors_view(v@)),
        IndexEntry::NotFound => EntrySpec::NotFound,
    }
}

/// The record owed to identity `id`: the anchors of the first corpus
/// document so named; an empty anchor set for a bare file known to exist;
/// `NotFound` otherwise.
pub open spec fn entry_of(docs: Seq<DocSpec>, extra: Seq<Seq<u8>>, id: Seq<u8>) -> EntrySpec {
    match corpus_find(docs, id) {
        Some(d) => EntrySpec::Computed(doc_anchors(d.content)),
        None => if listed(extra, id) {
            EntrySpec::Computed(Seq::empty())
        } else {
            EntrySpec::NotFound
        },
    }
}

/// An entry depends only on what the corpus holds under its own identity:
/// two corpora agreeing there, with the same known-file list, owe the same
/// record. A reference cycle between documents therefore cannot make one
/// entry's computation wait on another's.
pub proof fn lemma_entry_local(
    docs1: Seq<DocSpec>,
    docs2: Seq<DocSpec>,
    extra: Seq<Seq<u8>>,
    id: Seq<u8>,
)
    requires
        corpus_find(docs1, id) == corpus_find(docs2, id),
    ensures
        entry_of(docs1, extra, id) == entry_of(docs2, extra, id),
{
}

/// The first record stored under `id`, if any.
pub open spec fn index_lookup(s: Seq<(Seq<u8>, EntrySpec)>, id: Seq<u8>) -> Option<EntrySpec>
    decreases s.len(),
{
    if s.len() == 0 {
        None
    } else if s.first().0 == id {
        Some(s.first().1)
    } else {
        index_lookup(s.drop_first(), id)
    }
}

proof fn lemma_index_lookup_at(s: Seq<(Seq<u8>, EntrySpec)>, id: Seq<u8>, k: int)
    requires
        0 <= k <= s.len(),
        forall|j: int| 0 <= j < k ==> (#[trigger] s[j]).0 != id,
        k == s.len() || s[k].0 == id,
    ensures
        index_lookup(s, id) == if k == s.len() {
            None::<EntrySpec>
        } else {
            Some(s[k].1)
        },
    decreases s.len(),
{
    if s.len() > 0 {
        if k == 0 {
        } else {
            let d = s.drop_first();
            assert(forall|j: int| 0 <= j < k - 1 ==> d[j] == s[j + 1]);
            lemma_index_lookup_at(d, id, k - 1);
        }
    }
}

proof fn lemma_index_lookup_push(
    s: Seq<(Seq<u8>, EntrySpec)>,
    id: Seq<u8>,
    e: EntrySpec,
)
    requires
        index_lookup(s, id) is None,
    ensures
        index_lookup(s.push((id, e)), id) == Some(e),
    decreases s.len(),
{
    let t = s.push((id, e));
    if s.len() == 0 {
        assert(t.first().0 == id);
    } else {
        assert(t.first() == s.first());
        assert(t.drop_first() =~= s.drop_first().push((id, e)));
        lemma_index_lookup_push(s.drop_first(), id, e);
    }
}

fn clone_byte_lists(v: &Vec<Vec<u8>>) -> (r: Vec<Vec<u8>>)
    ensures
        anchors_view(r@) == anchors_view(v@),
{
    let n = v.len();
    let mut r: Vec<Vec<u8>> = Vec::new();
    let mut i: usize = 0;
    while i < n
        invariant
            i <= n,
            n == v@.len(),
            anchors_view(r@) == anchors_view(v@).take(i as int),
        decreases n - i,
    {
        let ghost r0 = r@;
        r.push(slice_to_vec(v[i].as_slice()));
        proof {
            assert(anchors_view(v@).len() == v@.len());
            assert(anchors_view(r0).len() == r0.len());
            assert(r@.len() == i + 1);
            assert forall|k: int|
                0 <= k < r@.len() implies #[trigger] anchors_view(r@)[k] == anchors_view(
                v@,
            ).take(i + 1)[k] by {
                assert(anchors_view(r@)[k] == r@[k]@);
                assert(anchors_view(v@)[k] == v@[k]@);
                if k < i {
                    assert(r@[k] == r0[k]);
                    assert(anchors_view(r0)[k] == r0[k]@);
                    assert(anchors_view(r0)[k] == anchors_view(v@).take(i as int)[k]);
                }
            }
            assert(anchors_view(r@) =~= anchors_view(v@).take(i + 1));
        }
        i += 1;
    }
    proof {
        assert(anchors_view(v@).take(n as int) =~= anchors_view(v@));
    }
    r
}

fn clone_entry(e: &IndexEntry) -> (r: IndexEntry)
    ensures
        entry_view(r) == entry_view(*e),
{
    match e {
        IndexEntry::Computed(v) => IndexEntry::Computed(clone_byte_lists(v)),
        IndexEntry::NotFound => IndexEntry::NotFound,
    }
}

/// Compute the record owed to `id` from the corpus itself.
fn compute_entry(docs: &Vec<Doc>, extra: &Vec<Vec<u8>>, id: &[u8]) -> (r: IndexEntry)
    ensures
        entry_view(r) == entry_of(docs_view(docs@), anchors_view(extra@), id@),
{
    match find_doc(docs, id) {
        Some(di) => {
            let d = &docs[di];
            match &d.content {
                Some(text) => {
                    let evs = parse_events(text.as_str());
                    let ext = extract(&evs);
                    proof {
                        assert(docs@[di as int]@ == docs_view(docs@)[di as int]);
                    }
                    IndexEntry::Computed(ext.anchors)
                },
                None => {
                    let r = IndexEntry::Computed(Vec::new());
                    proof {
                        assert(docs@[di as int]@ == docs_view(docs@)[di as int]);
                        assert(anchors_view(Seq::<Vec<u8>>::empty()) =~= Seq::<Seq<u8>>::empty());
                    }
                    r
                },
            }
        },
        None => {
            if contains_bytes(extra, id) {
                let r = IndexEntry::Computed(Vec::new());
                proof {
                    assert(anchors_view(Seq::<Vec<u8>>::empty()) =~= Seq::<Seq<u8>>::empty());
                }
                r
            } else {
                IndexEntry::NotFound
            }
        },
    }
}

/// The concurrent-cache model: stored records plus how many computations
/// have run.
pub struct AnchorIndex {
    entries: Vec<(Vec<u8>, IndexEntry)>,
    computations: usize,
}

/// An entry pair as the record it stands for.
pub open spec fn pair_view(p: (Vec<u8>, IndexEntry)) -> (Seq<u8>, EntrySpec) {
    (p.0@, entry_view(p.1))
}

impl AnchorIndex {
    /// The stored records, in insertion order.
    pub closed spec fn view(&self) -> Seq<(Seq<u8>, EntrySpec)> {
        self.entries@.map_values(|p: (Vec<u8>, IndexEntry)| pair_view(p))
    }

    /// How many computations the index has run.
    pub closed spec fn computation_count(&self) -> int {
        self.computations as int
    }

    /// The index is faithful to the corpus: every stored record is the one
    /// owed to its identity, and each cost exactly one computation.
    pub open spec fn wf(&self, docs: Seq<DocSpec>, extra: Seq<Seq<u8>>) -> bool {
        &&& forall|i: int|
            0 <= i < self@.len() ==> (#[trigger] self@[i]).1 == entry_of(docs, extra, self@[i].0)
        &&& self.computation_count() == self@.len()
    }

    pub fn new() -> (r: AnchorIndex)
        ensures
            r@ == Seq::<(Seq<u8>, EntrySpec)>::empty(),
            r.computation_count() == 0,
    {
        let r = AnchorIndex { entries: Vec::new(), computations: 0 };
        proof {
            assert(r@ =~= Seq::<(Seq<u8>, EntrySpec)>::empty());
        }
        r
    }

    /// How many computations have run.
    pub fn computations(&self) -> (r: usize)
        ensures
            r as int == self.computation_count(),
    {
        self.computations
    }

    fn find_entry(&self, id: &[u8]) -> (r: Option<usize>)
        ensures
            match r {
                Some(k) => 0 <= k < self@.len() && self@[k as int].0 == id@ && index_lookup(
                    self@,
                    id@,
                ) == Some(self@[k as int].1),
                None => index_lookup(self@, id@) is None,
            },
    {
        let n = self.entries.len();
        let mut i: usize = 0;
        while i < n
            invariant
                i <= n,
                n == self@.len(),
                forall|j: int| 0 <= j < i ==> (#[trigger] self@[j]).0 != id@,
            decreases n - i,
        {
            proof {
                assert(self@[i as int] == pair_view(self.entries@[i as int]));
            }
            if bytes_eq(self.entries[i].0.as_slice(), id) {
                proof {
                    lemma_index_lookup_at(self@, id@, i as int);
                }
                return Some(i);
            }
            i += 1;
        }
        proof {
            lemma_index_lookup_at(self@, id@, n as int);
        }
        None
    }

    /// Resolve the record for `id`, computing and caching it on first
    /// request: a cached identity changes nothing and costs nothing; a new
    /// identity costs exactly one computation.
    pub fn resolve(&mut self, docs: &Vec<Doc>, extra: &Vec<Vec<u8>>, id: &[u8]) -> (r: IndexEntry)
        requires
            old(self).wf(docs_view(docs@), anchors_view(extra@)),
        ensures
            final(self).wf(docs_view(docs@), anchors_view(extra@)),
            entry_view(r) == entry_of(docs_view(docs@), anchors_view(extra@), id@),
            index_lookup(old(self)@, id@) is Some ==> final(self)@ == old(self)@
                && final(self).computation_count() == old(self).computation_count(),
            index_lookup(old(self)@, id@) is None ==> final(self)@ == old(self)@.push(
                (id@, entry_of(docs_view(docs@), anchors_view(extra@), id@)),
            ) && final(self).computation_count() == old(self).computation_count() + 1,
            index_lookup(final(self)@, id@) == Some(
                entry_of(docs_view(docs@), anchors_view(extra@), id@),
            ),
    {
        match self.find_entry(id) {
            Some(k) => {
                let r = clone_entry(&self.entries[k].1);
                proof {
                    assert(self@[k as int] == pair_view(self.entries@[k as int]));
                }
                r
            },
            None => {
                let entry = compute_entry(docs, extra, id);
                let stored = clone_entry(&entry);
                let idc = slice_to_vec(id);
                let ghost before = self@;
                self.entries.push((idc, stored));
                let l = self.entries.len();
                proof {
                    assert(self@ =~= before.push((id@, entry_view(entry))));
                    assert(l == self@.len());
                }
                self.computations = self.computations + 1;
                proof {
                    lemma_index_lookup_push(
                        before,
                        id@,
                        entry_of(docs_view(docs@), anchors_view(extra@), id@),
                    );
                }
                entry
            },
        }
    }

    /// Record a document's own anchors before its references are checked,
    /// so that a self-reference finds them without recomputation; a record
    /// already present is left alone.
    pub fn register(
        &mut self,
        docs: &Vec<Doc>,
        extra: &Vec<Vec<u8>>,
        id: &[u8],
        anchors: &Vec<Vec<u8>>,
    )
        requires
            old(self).wf(docs_view(docs@), anchors_view(extra@)),
            entry_of(docs_view(docs@), anchors_view(extra@), id@) == EntrySpec::Computed(
                anchors_view(anchors@),
            ),
        ensures
            final(self).wf(docs_view(docs@), anchors_view(extra@)),
            index_lookup(old(self)@, id@) is Some ==> final(self)@ == old(self)@
                && final(self).computation_count() == old(self).computation_count(),
            index_lookup(old(self)@, id@) is None ==> final(self)@ == old(self)@.push(
                (id@, entry_of(docs_view(docs@), anchors_view(extra@), id@)),
            ) && final(self).computation_count() == old(self).computation_count() + 1,
    {
        match self.find_entry(id) {
            Some(_) => {},
            None => {
                let stored = IndexEntry::Computed(clone_byte_lists(anchors));
                let ghost sv = entry_view(stored);
                let idc = slice_to_vec(id);
                let ghost before = self@;
                self.entries.push((idc, stored));
                let l = self.entries.len();
                proof {
                    assert(self@ =~= before.push((id@, sv)));
                    assert(l == self@.len());
                }
                self.computations = self.computations + 1;
            },
        }
    }
}

/// A faithful index has run exactly one computation per stored record:
/// however many documents requested an identity, its record was computed
/// at most once.
pub proof fn lemma_at_most_once(
    idx: &AnchorIndex,
    docs: Seq<DocSpec>,
    extra: Seq<Seq<u8>>,
)
    requires
        idx.wf(docs, extra),
    ensures
        idx.computation_count() == idx@.len(),
{
}

} // verus!
