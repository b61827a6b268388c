//! One block of the stream as it travels through the pipeline.

use vstd::prelude::*;
use vstd::slice::{slice_subrange, slice_to_vec};

verus! {

/// A block of input together with the buffer that receives its
/// (de)compressed form. `order` is the block's position in the stream and
/// `output_size` the number of bytes of `buffer_output` that hold the result.
pub struct Tcontent {
    pub order: u64,
    pub buffer_input: Vec<u8>,
    pub buffer_output: Vec<u8>,
    pub output_size: u32,
}

/// A buffer of `n` zero bytes.
pub open spec fn zeros(n: nat) -> Seq<u8> {
    Seq::new(n, |_i: int| 0u8)
}

/// `zeros(n)` is `n` bytes long and every byte is zero.
pub proof fn lemma_zeros(n: nat)
    ensures
        zeros(n).len() == n,
        forall|i: int| 0 <= i < n ==> #[trigger] zeros(n)[i] == 0u8,
{
}

/// The result bytes of a block are its first `output_size` output bytes,
/// exactly.
pub proof fn lemma_payload_view(t: Tcontent)
    requires
        t.has_valid_output(),
    ensures
        t.payload_view().len() == t.output_size,
        forall|i: int| 0 <= i < t.output_size ==> #[trigger] t.payload_view()[i] == t.buffer_output@[i],
{
}

impl Tcontent {
    /// The result size stays within the output buffer.
    pub open spec fn has_valid_output(&self) -> bool {
        self.output_size <= self.buffer_output.len()
    }

    /// The bytes of the result: the first `output_size` bytes of the output buffer.
    pub open spec fn payload_view(&self) -> Seq<u8> {
        self.buffer_output@.subrange(0, self.output_size as int)
    }

    /// A fresh block holding a copy of `input`, numbered `order`, with an
    /// output buffer of `capacity` zero bytes and no result yet.
    pub fn new(order: u64, input: &[u8], capacity: usize) -> (t: Tcontent)
        ensures
            t.order == order,
            t.buffer_input@ == input@,
            t.buffer_output@ == zeros(capacity as nat),
            t.buffer_output.len() == capacity,
            forall|i: int| 0 <= i < capacity ==> t.buffer_output@[i] == 0u8,
            t.output_size == 0,
    {
        let out: Vec<u8> = vec![0u8; capacity];
        assert(out@ =~= zeros(capacity as nat));
        Tcontent { order, buffer_input: slice_to_vec(input), buffer_output: out, output_size: 0 }
    }

    /// The result bytes of this block.
    pub fn payload(&self) -> (p: &[u8])
        requires
            self.has_valid_output(),
        ensures
            p@ == self.payload_view(),
    {
        slice_subrange(self.buffer_output.as_slice(), 0, self.output_size as usize)
    }
}

} // verus!
