//! Byte-offset to line/column translation.
//!
//! A document's coordinate system is a table of line-start offsets: offset
//! zero, then the offset just past each newline byte. A byte offset is
//! translated to a 1-based (line, column) pair against that table.

use vstd::prelude::*;
use vstd::string::StringSliceAdditionalSpecFns;

verus! {

/// The offsets just past each newline byte of `text`, in increasing order.
pub open spec fn newline_starts(text: Seq<u8>) -> Seq<int>
    decreases text.len(),
{
    if text.len() == 0 {
        Seq::empty()
    } else if text.last() == 10u8 {
        newline_starts(text.drop_last()).push(text.len() as int)
    } else {
        newline_starts(text.drop_last())
    }
}

/// Every line start of `text`: offset zero, then the offset just past each
/// newline byte.
pub open spec fn line_starts_of(text: Seq<u8>) -> Seq<int> {
    seq![0int] + newline_starts(text)
}

/// A line-start table as the mathematical sequence it stands for.
pub open spec fn starts_view(s: Seq<usize>) -> Seq<int> {
    s.map_values(|v: usize| v as int)
}

/// A well-formed line-start table: nonempty, beginning at offset zero,
/// strictly increasing.
pub open spec fn wf_starts(starts: Seq<int>) -> bool {
    &&& starts.len() > 0
    &&& starts[0] == 0
    &&& forall|i: int, j: int| 0 <= i < j < starts.len() ==> starts[i] < starts[j]
}

proof fn lemma_newline_starts_props(text: Seq<u8>)
    ensures
        forall|i: int|
            0 <= i < newline_starts(text).len() ==> 1 <= #[trigger] newline_starts(text)[i]
                <= text.len(),
        forall|i: int, j: int|
            0 <= i < j < newline_starts(text).len() ==> newline_starts(text)[i]
                < newline_starts(text)[j],
    decreases text.len(),
{
    if text.len() == 0 {
    } else {
        let prev = newline_starts(text.drop_last());
        lemma_newline_starts_props(text.drop_last());
        assert(text.drop_last().len() == text.len() - 1);
        if text.last() == 10u8 {
            let cur = prev.push(text.len() as int);
            assert(newline_starts(text) == cur);
            assert forall|i: int| 0 <= i < cur.len() implies 1 <= #[trigger] cur[i]
                <= text.len() by {
                if i < prev.len() {
                    assert(cur[i] == prev[i]);
                }
            }
            assert forall|i: int, j: int| 0 <= i < j < cur.len() implies cur[i] < cur[j] by {
                assert(cur[i] == prev[i]);
                if j < prev.len() {
                    assert(cur[j] == prev[j]);
                } else {
                    assert(cur[j] == text.len() as int);
                    assert(prev[i] <= text.len() - 1);
                }
            }
        } else {
            assert(newline_starts(text) == prev);
        }
    }
}

/// The full table for any text is well formed, and every entry lies within
/// the text.
pub proof fn lemma_line_starts_wf(text: Seq<u8>)
    ensures
        wf_starts(line_starts_of(text)),
        forall|i: int|
            0 <= i < line_starts_of(text).len() ==> 0 <= #[trigger] line_starts_of(text)[i]
                <= text.len(),
{
    lemma_newline_starts_props(text);
}

/// The index of the line containing `offset`: the largest `i` with
/// `starts[i] <= offset` (index zero when the offset precedes every entry).
pub open spec fn line_index_of(starts: Seq<int>, offset: int) -> int
    decreases starts.len(),
{
    if starts.len() <= 1 {
        0
    } else if starts.last() <= offset {
        starts.len() - 1
    } else {
        line_index_of(starts.drop_last(), offset)
    }
}

/// The 1-based (line, column) pair for `offset` against the table `starts`.
pub open spec fn line_col_of(starts: Seq<int>, offset: int) -> (int, int) {
    let i = line_index_of(starts, offset);
    (i + 1, offset - starts[i] + 1)
}

/// `i` answers the line-lookup question for `offset` in `starts`.
pub open spec fn is_line_for(starts: Seq<int>, offset: int, i: int) -> bool {
    &&& 0 <= i < starts.len()
    &&& starts[i] <= offset
    &&& (i + 1 == starts.len() || offset < starts[i + 1])
}

proof fn lemma_line_index_unique(starts: Seq<int>, offset: int, i: int)
    requires
        wf_starts(starts),
        is_line_for(starts, offset, i),
    ensures
        i == line_index_of(starts, offset),
    decreases starts.len(),
{
    if starts.len() <= 1 {
    } else if starts.last() <= offset {
        if i < starts.len() - 1 {
            assert(starts[i + 1] <= starts[starts.len() - 1]) by {
                if i + 1 < starts.len() - 1 {
                    assert(starts[i + 1] < starts[starts.len() - 1]);
                }
            }
            assert(false);
        }
    } else {
        assert(i < starts.len() - 1);
        let d = starts.drop_last();
        assert(d.len() == starts.len() - 1);
        assert(forall|k: int| 0 <= k < d.len() ==> d[k] == starts[k]);
        assert(is_line_for(d, offset, i));
        lemma_line_index_unique(d, offset, i);
    }
}

/// Return a Vec where each entry is the byte offset of the start of a line.
pub fn compute_line_starts(text: &str) -> (r: Vec<usize>)
    ensures
        starts_view(r@) == line_starts_of(text.spec_bytes()),
        wf_starts(starts_view(r@)),
        forall|i: int| 0 <= i < r@.len() ==> #[trigger] r@[i] <= text.spec_bytes().len(),
{
    let bytes = text.as_bytes();
    let n = bytes.len();
    let mut r: Vec<usize> = Vec::new();
    r.push(0);
    assert(starts_view(r@) =~= line_starts_of(bytes@.take(0)));
    let mut i: usize = 0;
    while i < n
        invariant
            i <= n,
            n == bytes@.len(),
            bytes@ == text.spec_bytes(),
            starts_view(r@) == line_starts_of(bytes@.take(i as int)),
        decreases n - i,
    {
        let ghost p = bytes@.take(i as int);
        let ghost q = bytes@.take(i + 1);
        assert(q.drop_last() =~= p);
        assert(q.last() == bytes@[i as int]);
        if bytes[i] == 10 {
            let ghost r_old = r@;
            r.push(i + 1);
            proof {
                assert(newline_starts(q) == newline_starts(p).push((i + 1) as int));
                assert(r@ == r_old.push((i + 1) as usize));
                assert(line_starts_of(q).len() == line_starts_of(p).len() + 1);
                assert forall|k: int| 0 <= k < r@.len() implies #[trigger] starts_view(r@)[k]
                    == line_starts_of(q)[k] by {
                    assert(starts_view(r@)[k] == r@[k] as int);
                    if k < r_old.len() {
                        assert(r@[k] == r_old[k]);
                        assert(starts_view(r_old)[k] == r_old[k] as int);
                        assert(starts_view(r_old)[k] == line_starts_of(p)[k]);
                        if k > 0 {
                            assert(line_starts_of(p)[k] == newline_starts(p)[k - 1]);
                            assert(line_starts_of(q)[k] == newline_starts(q)[k - 1]);
                            assert(newline_starts(q)[k - 1] == newline_starts(p)[k - 1]);
                        }
                    } else {
                        assert(r@[k] == (i + 1) as usize);
                        assert(line_starts_of(q)[k] == (i + 1) as int);
                    }
                }
                assert(starts_view(r@) =~= line_starts_of(q));
            }
        } else {
            proof {
                assert(newline_starts(q) == newline_starts(p));
                assert(starts_view(r@) =~= line_starts_of(q));
            }
        }
        i += 1;
    }
    assert(bytes@.take(n as int) =~= bytes@);
    proof {
        lemma_line_starts_wf(text.spec_bytes());
        lemma_newline_starts_props(text.spec_bytes());
        assert(forall|k: int|
            0 <= k < r@.len() ==> #[trigger] r@[k] as int == starts_view(r@)[k]);
    }
    r
}

/// Convert a byte offset into (line, column) given precomputed line starts.
pub fn offset_to_line_col(offset: usize, line_starts: &[usize]) -> (r: (usize, usize))
    requires
        wf_starts(starts_view(line_starts@)),
        offset < usize::MAX,
    ensures
        (r.0 as int, r.1 as int) == line_col_of(starts_view(line_starts@), offset as int),
        r.0 >= 1,
        r.1 >= 1,
{
    let ghost sv = starts_view(line_starts@);
    proof {
        assert(forall|k: int| 0 <= k < line_starts@.len() ==> #[trigger] sv[k] == line_starts@[k] as int);
    }
    let mut lo: usize = 0;
    let mut hi: usize = line_starts.len();
    while hi - lo > 1
        invariant
            0 <= lo < hi <= line_starts@.len(),
            sv == starts_view(line_starts@),
            wf_starts(sv),
            sv[lo as int] <= offset as int,
            hi == line_starts@.len() || (offset as int) < sv[hi as int],
        decreases hi - lo,
    {
        let mid = lo + (hi - lo) / 2;
        if line_starts[mid] <= offset {
            lo = mid;
        } else {
            hi = mid;
        }
    }
    proof {
        assert(is_line_for(sv, offset as int, lo as int));
        lemma_line_index_unique(sv, offset as int, lo as int);
    }
    (lo + 1, offset - line_starts[lo] + 1)
}

} // verus!
