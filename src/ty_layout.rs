//! Which bytes of a value's layout hold data, as opposed to padding.
use vstd::prelude::*;

verus! {

/// A run of data bytes: `size` bytes from byte `offset` on.
#[derive(Debug, Clone, Copy, PartialEq, Eq, Structural)]
pub struct DataBytes {
    pub offset: usize,
    pub size: usize,
}

/// The layout of a type: its size in bytes and the runs of bytes that hold
/// data.
#[derive(Debug)]
pub struct TypeLayout {
    pub size_in_bytes: usize,
    pub data_chunks: Vec<DataBytes>,
}

/// Whether byte `i` lies in one of `chunks`.
pub open spec fn covered(chunks: Seq<DataBytes>, i: int) -> bool {
    exists|c: int| 0 <= c < chunks.len() && (#[trigger] chunks[c]).offset <= i < chunks[c].offset + chunks[c].size
}

impl TypeLayout {
    /// One flag per byte of the type: whether the byte holds data.
    pub fn to_byte_mask(&self) -> (r: Vec<bool>)
        ensures
            r@.len() == self.size_in_bytes,
            forall|i: int| 0 <= i < r@.len() ==> r@[i] == covered(self.data_chunks@, i),
    {
        let mut layout_mask: Vec<bool> = Vec::new();
        let mut i: usize = 0;
        while i < self.size_in_bytes
            invariant
                i <= self.size_in_bytes,
                layout_mask@.len() == i,
                forall|j: int| 0 <= j < i ==> !layout_mask@[j],
            decreases self.size_in_bytes - i,
        {
            layout_mask.push(false);
            i = i + 1;
        }
        let mut c: usize = 0;
        while c < self.data_chunks.len()
            invariant
                c <= self.data_chunks@.len(),
                layout_mask@.len() == self.size_in_bytes,
                forall|j: int|
                    0 <= j < layout_mask@.len() ==> layout_mask@[j] == covered(
                        self.data_chunks@.take(c as int),
                        j,
                    ),
            decreases self.data_chunks@.len() - c,
        {
            let data_bytes = self.data_chunks[c];
            let mut b: usize = data_bytes.offset;
            let end: usize = if data_bytes.size > self.size_in_bytes {
                self.size_in_bytes
            } else if data_bytes.offset > self.size_in_bytes - data_bytes.size {
                self.size_in_bytes
            } else {
                data_bytes.offset + data_bytes.size
            };
            let ghost before = layout_mask@;
            while b < end
                invariant
                    layout_mask@.len() == self.size_in_bytes,
                    end <= self.size_in_bytes,
                    end <= data_bytes.offset + data_bytes.size,
                    end == self.size_in_bytes || end == data_bytes.offset + data_bytes.size,
                    data_bytes.offset <= b || end <= b,
                    before.len() == layout_mask@.len(),
                    forall|j: int|
                        0 <= j < layout_mask@.len() ==> #[trigger] layout_mask@[j] == (before[j] || (
                        data_bytes.offset <= j < b && j < end)),
                decreases end - b,
            {
                layout_mask.set(b, true);
                b = b + 1;
            }
            proof {
                let chunks = self.data_chunks@;
                assert(chunks.take(c + 1) =~= chunks.take(c as int).push(data_bytes));
                assert forall|j: int| 0 <= j < layout_mask@.len() implies layout_mask@[j] == covered(
                    chunks.take(c + 1),
                    j,
                ) by {
                    assert(layout_mask@[j] == (before[j] || (data_bytes.offset <= j < end)));
                    let old_cov = covered(chunks.take(c as int), j);
                    let here = data_bytes.offset <= j < data_bytes.offset + data_bytes.size;
                    if old_cov {
                        let w = choose|w: int|
                            0 <= w < chunks.take(c as int).len() && (#[trigger] chunks.take(
                                c as int,
                            )[w]).offset <= j < chunks.take(c as int)[w].offset + chunks.take(
                                c as int,
                            )[w].size;
                        assert(chunks.take(c + 1)[w] == chunks.take(c as int)[w]);
                    }
                    if here {
                        assert(chunks.take(c + 1)[c as int] == data_bytes);
                    }
                    if covered(chunks.take(c + 1), j) && !old_cov {
                        let w = choose|w: int|
                            0 <= w < chunks.take(c + 1).len() && (#[trigger] chunks.take(c + 1)[w]).offset
                                <= j < chunks.take(c + 1)[w].offset + chunks.take(c + 1)[w].size;
                        if w < c {
                            assert(chunks.take(c as int)[w] == chunks.take(c + 1)[w]);
                        }
                    }
                }
            }
            c = c + 1;
        }
        proof {
            assert(self.data_chunks@.take(c as int) =~= self.data_chunks@);
        }
        layout_mask
    }
}

} // verus!
