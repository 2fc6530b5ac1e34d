//! Splitting a span into record-aligned sub-spans, one per worker.
use vstd::prelude::*;

use crate::scan::{lemma_take_until, take_until, RECORD_END};

verus! {

/// The offset just past the first record terminator at or after `c`, or the
/// end of `s` where there is none.
pub open spec fn boundary_after(s: Seq<u8>, c: int) -> int {
    let l = take_until(s.skip(c), RECORD_END).len() as int;
    if c + l < s.len() {
        c + l + 1
    } else {
        s.len() as int
    }
}

/// Where the sub-span of worker `t` (counting from 1) starts: the first
/// record boundary at or after `t * (len / n)`.
pub open spec fn split_point(s: Seq<u8>, n: int, t: int) -> int {
    boundary_after(s, t * (s.len() as int / n))
}

/// A span of `s`: an ordered pair of offsets.
pub type Chunk = (usize, usize);

/// Sub-span `t + 1` starts where sub-span `t` ends.
pub open spec fn meets(chunks: Seq<Chunk>, t: int) -> bool {
    chunks[t].1 == chunks[t + 1].0
}

/// The sub-spans are contiguous and cover `[0, len)`: the first starts at 0,
/// each starts where the one before ended, the last ends at `len`.
pub open spec fn covers(chunks: Seq<Chunk>, len: int) -> bool {
    &&& chunks.len() >= 1
    &&& chunks[0].0 == 0
    &&& chunks.last().1 == len
    &&& forall|t: int| 0 <= t < chunks.len() ==> (#[trigger] chunks[t]).0 <= chunks[t].1 <= len
    &&& forall|t: int| 0 <= t < chunks.len() - 1 ==> #[trigger] meets(chunks, t)
}

/// Every inner boundary lies just past a record terminator, or at the end.
pub open spec fn aligned(chunks: Seq<Chunk>, s: Seq<u8>) -> bool {
    forall|t: int|
        0 <= t < chunks.len() - 1 ==> (#[trigger] chunks[t]).1 == s.len() || (0 < chunks[t].1
            && s[chunks[t].1 - 1] == RECORD_END)
}

proof fn lemma_boundary(s: Seq<u8>, c: int)
    requires
        0 <= c <= s.len(),
    ensures
        c <= boundary_after(s, c) <= s.len(),
        boundary_after(s, c) == s.len() || (c < boundary_after(s, c) && s[boundary_after(s, c) - 1]
            == RECORD_END),
        forall|k: int| c <= k < boundary_after(s, c) - 1 ==> s[k] != RECORD_END,
{
    let r = s.skip(c);
    lemma_take_until(r, RECORD_END);
    let l = take_until(r, RECORD_END).len() as int;
    if c + l < s.len() {
        assert(r[l] == s[c + l]);
    }
    assert forall|k: int| c <= k < boundary_after(s, c) - 1 implies s[k] != RECORD_END by {
        assert(r[k - c] == s[k]);
    }
}

proof fn lemma_boundary_monotone(s: Seq<u8>, c1: int, c2: int)
    requires
        0 <= c1 <= c2 <= s.len(),
    ensures
        boundary_after(s, c1) <= boundary_after(s, c2),
{
    lemma_boundary(s, c1);
    lemma_boundary(s, c2);
    let b1 = boundary_after(s, c1);
    let b2 = boundary_after(s, c2);
    if b1 > b2 {
        // b2 - 1 lies in [c1, b1 - 1) and holds a terminator
        assert(s[b2 - 1] == RECORD_END);
    }
}

/// Splits `mmap` (of length `len`) into `threads` sub-spans: worker `t`
/// starts at the first record boundary at or after `t * (len / threads)`,
/// clamped to `len`, so that no record is split and the sub-spans cover the
/// input exactly; some of them may be empty.
pub fn get_chunks(mmap: &[u8], len: usize, threads: usize) -> (r: Vec<Chunk>)
    requires
        len == mmap@.len(),
        threads >= 1,
    ensures
        r@.len() == threads,
        covers(r@, len as int),
        aligned(r@, mmap@),
        forall|t: int|
            0 <= t < threads - 1 ==> (#[trigger] r@[t]).1 == split_point(mmap@, threads as int, t + 1),
{
    let mut v: Vec<Chunk> = Vec::new();
    let mut start: usize = 0;
    let mut t: usize = 1;
    let step = len / threads;
    proof {
        assert(step * threads <= len) by (nonlinear_arith)
            requires
                step == len / threads,
                threads >= 1,
        ;
    }
    while t < threads
        invariant
            1 <= t <= threads,
            step == len / threads,
            step * threads <= len,
            len == mmap@.len(),
            v@.len() == t - 1,
            start <= len,
            t == 1 ==> start == 0,
            t > 1 ==> start == v@.last().1,
            t > 1 ==> start == split_point(mmap@, threads as int, t - 1),
            v@.len() >= 1 ==> v@[0].0 == 0,
            forall|j: int| 0 <= j < v@.len() ==> (#[trigger] v@[j]).0 <= v@[j].1 <= len,
            forall|j: int| 0 <= j < v@.len() - 1 ==> #[trigger] meets(v@, j),
            forall|j: int|
                0 <= j < v@.len() ==> (#[trigger] v@[j]).1 == split_point(mmap@, threads as int, j + 1),
            aligned(v@.push((start, len)), mmap@),
        decreases threads - t,
    {
        proof {
            assert(t * step <= len) by (nonlinear_arith)
                requires
                    t <= threads,
                    step >= 0,
                    step * threads <= len,
            ;
        }
        let c = t * step;
        let mut i = c;
        while i < len && mmap[i] != RECORD_END
            invariant
                c <= i <= len,
                len == mmap@.len(),
                forall|k: int| c <= k < i ==> mmap@[k] != RECORD_END,
            decreases len - i,
        {
            i = i + 1;
        }
        let end = if i < len {
            i + 1
        } else {
            len
        };
        proof {
            lemma_boundary(mmap@, c as int);
            let b = boundary_after(mmap@, c as int);
            if b < end {
                assert(mmap@[b - 1] == RECORD_END);
            }
            if end < b {
                assert(mmap@[end - 1] == RECORD_END);
            }
            assert(end == split_point(mmap@, threads as int, t as int));
            if t > 1 {
                assert((t - 1) * step <= c) by (nonlinear_arith)
                    requires
                        c == t * step,
                        step >= 0,
                ;
                lemma_boundary_monotone(mmap@, (t - 1) * step, c as int);
            }
        }
        let ghost old_v = v@;
        v.push((start, end));
        proof {
            assert(v@.drop_last() =~= old_v);
            assert forall|j: int| 0 <= j < v@.len() implies (#[trigger] v@[j]).1
                == split_point(mmap@, threads as int, j + 1) by {
                if j < old_v.len() {
                    assert(v@[j] == old_v[j]);
                }
            }
            assert forall|j: int| 0 <= j < v@.len() - 1 implies #[trigger] meets(v@, j) by {
                assert(v@[j] == old_v[j]);
                if j + 1 < old_v.len() {
                    assert(meets(old_v, j));
                    assert(v@[j + 1] == old_v[j + 1]);
                }
            }
            let w = v@.push((end, len));
            assert forall|j: int| 0 <= j < w.len() - 1 implies (#[trigger] w[j]).1 == mmap@.len()
                || (0 < w[j].1 && mmap@[w[j].1 - 1] == RECORD_END) by {
                if j < old_v.len() {
                    assert(w[j] == old_v.push((start, len))[j]);
                }
            }
        }
        start = end;
        t = t + 1;
    }
    let ghost old_v = v@;
    v.push((start, len));
    proof {
        assert forall|j: int| 0 <= j < v@.len() - 1 implies #[trigger] meets(v@, j) by {
            assert(v@[j] == old_v[j]);
            if j + 1 < old_v.len() {
                assert(meets(old_v, j));
                assert(v@[j + 1] == old_v[j + 1]);
            }
        }
        assert forall|j: int| 0 <= j < v@.len() implies (#[trigger] v@[j]).0 <= v@[j].1 <= len by {
            if j < old_v.len() {
                assert(v@[j] == old_v[j]);
            }
        }
        assert forall|j: int| 0 <= j < threads - 1 implies (#[trigger] v@[j]).1 == split_point(
            mmap@,
            threads as int,
            j + 1,
        ) by {
            assert(v@[j] == old_v[j]);
        }
    }
    v
}

} // verus!
