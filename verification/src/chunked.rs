//! A compact model of the segmented column container that sits at this
//! crate's boundary.
//!
//! The execution layer holds a column as a sequence of chunks and iterates
//! it chunk by chunk; appending one column to another appends whole
//! chunks.  This model keeps just enough of that shape to state what
//! iteration yields: every value of every chunk, in order.

use vstd::prelude::*;

verus! {

use vstd::string::StringExecFns;

/// The values of the chunks `cs[k..]`, concatenated in order.
pub open spec fn flat(cs: Seq<Vec<u32>>, k: int) -> Seq<u32>
    decreases cs.len() - k,
{
    if k < 0 || k >= cs.len() {
        Seq::empty()
    } else {
        cs[k]@ + flat(cs, k + 1)
    }
}

/// Appending a chunk appends its values.
proof fn lemma_flat_snoc(cs: Seq<Vec<u32>>, c: Vec<u32>, k: int)
    requires
        0 <= k <= cs.len(),
    ensures
        flat(cs.push(c), k) == flat(cs, k) + c@,
    decreases cs.len() - k,
{
    if k == cs.len() {
        assert(flat(cs.push(c), k) =~= cs.push(c)[k]@ + flat(cs.push(c), k + 1));
        assert(flat(cs.push(c), k) =~= flat(cs, k) + c@);
    } else {
        lemma_flat_snoc(cs, c, k + 1);
        assert(cs.push(c)[k] == cs[k]);
        assert(flat(cs.push(c), k) =~= flat(cs, k) + c@);
    }
}

/// A named column of 32-bit unsigned values, held as a sequence of
/// chunks.
pub struct UInt32Chunked {
    name: String,
    chunks: Vec<Vec<u32>>,
}

impl UInt32Chunked {
    /// The column's values, across all chunks, in order.
    pub closed spec fn view(&self) -> Seq<u32> {
        flat(self.chunks@, 0)
    }

    pub closed spec fn spec_name(&self) -> Seq<char> {
        self.name@
    }

    /// A column of one chunk holding `values`.
    pub fn new_from_slice(name: &str, values: &[u32]) -> (r: UInt32Chunked)
        ensures
            r.view() == values@,
            r.spec_name() == name@,
    {
        let mut chunk: Vec<u32> = Vec::new();
        let n = values.len();
        let mut i: usize = 0;
        while i < n
            invariant
                i <= n,
                n == values@.len(),
                chunk@ == values@.subrange(0, i as int),
            decreases n - i,
        {
            chunk.push(values[i]);
            proof {
                assert(chunk@ =~= values@.subrange(0, i + 1 as int));
            }
            i += 1;
        }
        proof {
            assert(chunk@ =~= values@);
        }
        let mut chunks: Vec<Vec<u32>> = Vec::new();
        chunks.push(chunk);
        let r = UInt32Chunked { name: name.to_owned(), chunks };
        proof {
            assert(flat(r.chunks@, 1) =~= Seq::<u32>::empty());
            assert(r.view() == r.chunks@[0]@ + flat(r.chunks@, 1));
            assert(r.view() =~= values@);
        }
        r
    }

    pub fn name(&self) -> (r: &String)
        ensures
            r@ == self.spec_name(),
    {
        &self.name
    }

    /// Appends the chunks of `other`, keeping this column's name.
    pub fn append(&mut self, other: &UInt32Chunked)
        ensures
            final (self).view() == old(self).view() + other.view(),
            final (self).spec_name() == old(self).spec_name(),
    {
        let n = other.chunks.len();
        let mut k: usize = 0;
        while k < n
            invariant
                k <= n,
                n == other.chunks@.len(),
                self.spec_name() == old(self).spec_name(),
                flat(self.chunks@, 0) + flat(other.chunks@, k as int) == old(self).view()
                    + other.view(),
            decreases n - k,
        {
            let mut c: Vec<u32> = Vec::new();
            let m = other.chunks[k].len();
            let mut i: usize = 0;
            while i < m
                invariant
                    i <= m,
                    k < n,
                    n == other.chunks@.len(),
                    m == other.chunks@[k as int]@.len(),
                    c@ == other.chunks@[k as int]@.subrange(0, i as int),
                decreases m - i,
            {
                c.push(other.chunks[k][i]);
                proof {
                    assert(c@ =~= other.chunks@[k as int]@.subrange(0, i + 1 as int));
                }
                i += 1;
            }
            proof {
                assert(c@ =~= other.chunks@[k as int]@);
                lemma_flat_snoc(self.chunks@, c, 0);
                assert(flat(other.chunks@, k as int) == other.chunks@[k as int]@ + flat(
                    other.chunks@,
                    k + 1,
                ));
            }
            let ghost before = flat(self.chunks@, 0);
            self.chunks.push(c);
            proof {
                assert(flat(self.chunks@, 0) + flat(other.chunks@, k + 1) =~= old(self).view()
                    + other.view());
            }
            k += 1;
        }
        proof {
            assert(flat(other.chunks@, n as int) =~= Seq::<u32>::empty());
            assert(self.view() =~= old(self).view() + other.view());
        }
    }

    pub fn len(&self) -> (r: usize)
        requires
            self.view().len() <= usize::MAX,
        ensures
            r == self.view().len(),
    {
        let n = self.chunks.len();
        let mut total: usize = 0;
        let mut k: usize = 0;
        while k < n
            invariant
                k <= n,
                n == self.chunks@.len(),
                self.view().len() <= usize::MAX,
                total == flat(self.chunks@, 0).len() - flat(self.chunks@, k as int).len(),
                flat(self.chunks@, k as int).len() <= flat(self.chunks@, 0).len(),
            decreases n - k,
        {
            proof {
                assert(flat(self.chunks@, k as int) == self.chunks@[k as int]@ + flat(
                    self.chunks@,
                    k + 1,
                ));
            }
            total = total + self.chunks[k].len();
            k += 1;
        }
        proof {
            assert(flat(self.chunks@, n as int) =~= Seq::<u32>::empty());
        }
        total
    }

    /// What iterating the column yields: each value, present, in order.
    pub fn to_options(&self) -> (r: Vec<Option<u32>>)
        ensures
            r@.len() == self.view().len(),
            forall|i: int| 0 <= i < r@.len() ==> r@[i] == Some(self.view()[i]),
    {
        let n = self.chunks.len();
        let mut out: Vec<Option<u32>> = Vec::new();
        let mut k: usize = 0;
        while k < n
            invariant
                k <= n,
                n == self.chunks@.len(),
                out@.len() + flat(self.chunks@, k as int).len() == self.view().len(),
                forall|q: int| 0 <= q < out@.len() ==> #[trigger] out@[q] == Some(self.view()[q]),
                forall|q: int|
                    0 <= q < flat(self.chunks@, k as int).len() ==> #[trigger] flat(
                        self.chunks@,
                        k as int,
                    )[q] == self.view()[out@.len() + q],
            decreases n - k,
        {
            proof {
                assert(flat(self.chunks@, k as int) == self.chunks@[k as int]@ + flat(
                    self.chunks@,
                    k + 1,
                ));
            }
            let ghost base = out@.len() as int;
            let m = self.chunks[k].len();
            let mut i: usize = 0;
            while i < m
                invariant
                    i <= m,
                    k < n,
                    n == self.chunks@.len(),
                    m == self.chunks@[k as int]@.len(),
                    out@.len() == base + i,
                    base + flat(self.chunks@, k as int).len() == self.view().len(),
                    flat(self.chunks@, k as int) == self.chunks@[k as int]@ + flat(
                        self.chunks@,
                        k + 1,
                    ),
                    forall|q: int|
                        0 <= q < out@.len() ==> #[trigger] out@[q] == Some(self.view()[q]),
                    forall|q: int|
                        0 <= q < flat(self.chunks@, k as int).len() ==> #[trigger] flat(
                            self.chunks@,
                            k as int,
                        )[q] == self.view()[base + q],
                decreases m - i,
            {
                proof {
                    assert(flat(self.chunks@, k as int)[i as int] == self.chunks@[k as int]@[
                    i as int]);
                }
                out.push(Some(self.chunks[k][i]));
                i += 1;
            }
            proof {
                assert forall|q: int|
                    0 <= q < flat(self.chunks@, k + 1).len() implies #[trigger] flat(
                    self.chunks@,
                    k + 1,
                )[q] == self.view()[out@.len() + q] by {
                    assert(flat(self.chunks@, k as int)[m + q] == flat(self.chunks@, k + 1)[q]);
                }
            }
            k += 1;
        }
        proof {
            assert(flat(self.chunks@, n as int) =~= Seq::<u32>::empty());
        }
        out
    }
}

} // verus!
