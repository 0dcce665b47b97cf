//! Anchor-slug derivation from heading text.
//!
//! A heading is turned into a canonical anchor identifier: ASCII letters are
//! lowercased, digits kept, and every run of other bytes becomes a single
//! separator, with no separator at either end. Within one document, a
//! heading whose slug was already produced receives a numeric suffix: the
//! second occurrence of a base slug gets `-1`, the third `-2`, and so on,
//! in order of appearance.

use vstd::prelude::*;
use crate::bytes::bytes_eq;

verus! {

/// An ASCII letter or digit, the bytes a slug keeps.
pub open spec fn is_alnum(c: u8) -> bool {
    (48 <= c <= 57) || (65 <= c <= 90) || (97 <= c <= 122)
}

/// Lowercase an ASCII letter; any other byte is unchanged.
pub open spec fn to_lower(c: u8) -> u8 {
    if 65 <= c <= 90 {
        (c + 32) as u8
    } else {
        c
    }
}

/// One step of slug building: keep a letter or digit lowercased; any other
/// byte adds one separator, but never at the start and never twice in a row.
pub open spec fn slug_step(acc: Seq<u8>, c: u8) -> Seq<u8> {
    if is_alnum(c) {
        acc.push(to_lower(c))
    } else if acc.len() > 0 && acc.last() != 45u8 {
        acc.push(45u8)
    } else {
        acc
    }
}

/// The slug built from the first `i` bytes of `s`.
pub open spec fn slug_fold(s: Seq<u8>, i: int) -> Seq<u8>
    decreases i,
{
    if i <= 0 {
        Seq::empty()
    } else {
        slug_step(slug_fold(s, i - 1), s[i - 1])
    }
}

/// The canonical slug of heading text `s`: folded over every byte, with a
/// trailing separator, if any, removed.
pub open spec fn slug_of(s: Seq<u8>) -> Seq<u8> {
    let t = slug_fold(s, s.len() as int);
    if t.len() > 0 && t.last() == 45u8 {
        t.drop_last()
    } else {
        t
    }
}

/// The decimal digits of `n` (nonnegative), most significant first.
pub open spec fn dec_rep(n: int) -> Seq<u8>
    decreases n,
{
    if n < 10 {
        seq![(48 + if n < 0 { 0int } else { n }) as u8]
    } else {
        dec_rep(n / 10) + seq![(48 + n % 10) as u8]
    }
}

/// How many entries of `s` equal `key`.
pub open spec fn count_eq(s: Seq<Seq<u8>>, key: Seq<u8>) -> int
    decreases s.len(),
{
    if s.len() == 0 {
        0
    } else {
        count_eq(s.drop_last(), key) + if s.last() == key {
            1int
        } else {
            0int
        }
    }
}

/// The slug assigned to `heading` after the headings whose base slugs are
/// `prior` have been assigned: the bare base slug on first occurrence, and
/// `base-k` for the k-th repetition.
pub open spec fn assigned_slug(prior: Seq<Seq<u8>>, heading: Seq<u8>) -> Seq<u8> {
    let base = slug_of(heading);
    let k = count_eq(prior, base);
    if k == 0 {
        base
    } else {
        base + seq![45u8] + dec_rep(k)
    }
}

/// The anchor set of a document, as the ordered sequence of slugs assigned
/// to its headings.
pub open spec fn slugs_assigned(headings: Seq<Seq<u8>>) -> Seq<Seq<u8>> {
    Seq::new(
        headings.len(),
        |i: int|
            assigned_slug(
                headings.subrange(0, i).map_values(|h: Seq<u8>| slug_of(h)),
                headings[i],
            ),
    )
}

proof fn lemma_dec_rep_len(n: int)
    ensures
        dec_rep(n).len() >= 1,
    decreases n,
{
    if n >= 10 {
        lemma_dec_rep_len(n / 10);
    }
}

/// A repeated base slug never yields the bare base again: a heading whose
/// base slug was already assigned receives a suffixed, distinct anchor.
pub proof fn lemma_repeat_suffixed(prior: Seq<Seq<u8>>, heading: Seq<u8>)
    requires
        count_eq(prior, slug_of(heading)) > 0,
    ensures
        assigned_slug(prior, heading) != slug_of(heading),
{
    let base = slug_of(heading);
    let k = count_eq(prior, base);
    lemma_dec_rep_len(k);
    assert(assigned_slug(prior, heading).len() == base.len() + 1 + dec_rep(k).len());
}

/// Derive the canonical slug of one heading, without disambiguation.
pub fn slugify(s: &[u8]) -> (r: Vec<u8>)
    ensures
        r@ == slug_of(s@),
{
    let n = s.len();
    let mut acc: Vec<u8> = Vec::new();
    let mut i: usize = 0;
    while i < n
        invariant
            i <= n,
            n == s@.len(),
            acc@ == slug_fold(s@, i as int),
        decreases n - i,
    {
        let c = s[i];
        if (48 <= c && c <= 57) || (65 <= c && c <= 90) || (97 <= c && c <= 122) {
            let l = if 65 <= c && c <= 90 {
                c + 32
            } else {
                c
            };
            acc.push(l);
        } else if acc.len() > 0 && acc[acc.len() - 1] != 45 {
            acc.push(45);
        }
        assert(acc@ == slug_step(slug_fold(s@, i as int), s@[i as int]));
        i += 1;
    }
    if acc.len() > 0 && acc[acc.len() - 1] == 45 {
        acc.pop();
        assert(acc@ =~= slug_fold(s@, n as int).drop_last());
    }
    acc
}

/// The decimal digits of `n`, most significant first.
pub fn usize_to_dec(n: usize) -> (r: Vec<u8>)
    ensures
        r@ == dec_rep(n as int),
    decreases n,
{
    if n < 10 {
        let mut v: Vec<u8> = Vec::new();
        v.push(48 + (n as u8));
        assert(v@ =~= dec_rep(n as int));
        v
    } else {
        let mut v = usize_to_dec(n / 10);
        v.push(48 + ((n % 10) as u8));
        assert(v@ =~= dec_rep(n as int));
        v
    }
}

/// Per-document slug disambiguation state: the base slugs of the headings
/// assigned so far, in order of appearance.
pub struct SlugTable {
    bases: Vec<Vec<u8>>,
}

impl SlugTable {
    /// The base slugs assigned so far.
    pub closed spec fn view(&self) -> Seq<Seq<u8>> {
        self.bases@.map_values(|v: Vec<u8>| v@)
    }

    pub fn new() -> (r: SlugTable)
        ensures
            r@ == Seq::<Seq<u8>>::empty(),
    {
        let r = SlugTable { bases: Vec::new() };
        proof {
            assert(r@ =~= Seq::<Seq<u8>>::empty());
        }
        r
    }

    /// Assign the next anchor slug for `heading`, recording its base slug.
    pub fn assign(&mut self, heading: &[u8]) -> (r: Vec<u8>)
        ensures
            r@ == assigned_slug(old(self)@, heading@),
            final(self)@ == old(self)@.push(slug_of(heading@)),
    {
        let base = slugify(heading);
        let n = self.bases.len();
        let mut k: usize = 0;
        let mut i: usize = 0;
        while i < n
            invariant
                i <= n,
                n == self@.len(),
                base@ == slug_of(heading@),
                k <= i,
                k as int == count_eq(self@.subrange(0, i as int), base@),
            decreases n - i,
        {
            let ghost p = self@.subrange(0, i as int);
            let ghost q = self@.subrange(0, i + 1);
            assert(q.drop_last() =~= p);
            assert(q.last() == self@[i as int]);
            assert(self@[i as int] == self.bases@[i as int]@);
            if bytes_eq(self.bases[i].as_slice(), base.as_slice()) {
                k = k + 1;
            }
            i += 1;
        }
        assert(self@.subrange(0, n as int) =~= self@);
        let r: Vec<u8>;
        if k == 0 {
            r = base.clone();
            proof {
                assert(r@ =~= base@);
            }
        } else {
            let mut v = base.clone();
            proof {
                assert(v@ =~= base@);
            }
            v.push(45);
            let mut d = usize_to_dec(k);
            v.append(&mut d);
            assert(v@ =~= base@ + seq![45u8] + dec_rep(k as int));
            r = v;
        }
        let ghost before = self@;
        self.bases.push(base);
        proof {
            assert(self@ =~= before.push(slug_of(heading@)));
        }
        r
    }
}

} // verus!
