//! Buffers for direct device I/O, which has to start at an address that is a
//! multiple of the device's sector size.

use vstd::prelude::*;

verus! {

/// The address at which a vector keeps its bytes, as `Vec::as_ptr` gives it.
/// The allocator picks it, so nothing is claimed of it.
#[verifier::external_body]
fn base_address(bytes: &Vec<u8>) -> (address: usize) {
    bytes.as_ptr() as usize
}

/// Overwrites a whole slice with one value, as `<[u8]>::fill` does in a
/// single bulk write.
#[verifier::external_body]
fn fill_slice(bytes: &mut [u8], value: u8)
    ensures
        final(bytes)@.len() == old(bytes)@.len(),
        forall|i: int| 0 <= i < final(bytes)@.len() ==> final(bytes)@[i] == value,
{
    bytes.fill(value);
}

/// How far past `address` the next multiple of `align` lies.
pub open spec fn padding_to(address: int, align: int) -> int {
    (align - address % align) % align
}

/// The distance from `address` up to the next multiple of `align`.
pub fn padding(address: usize, align: usize) -> (pad: usize)
    requires
        align > 0,
    ensures
        pad == padding_to(address as int, align as int),
        pad < align,
        (address + pad) % (align as int) == 0,
{
    let rest = address % align;
    let pad = (align - rest) % align;
    assert((address + pad) % (align as int) == 0) by (nonlinear_arith)
        requires
            align > 0,
            rest == address % align,
            pad == (align - rest) % (align as int),
    {
        if rest == 0 {
            assert(pad == 0);
        } else {
            assert(pad == align - rest);
            assert(address == align * (address / align) + rest);
            assert(address + pad == align * (address / align + 1));
        }
    }
    pad
}

/// An owned region of `size` bytes whose first byte lies at an address that
/// is a multiple of the alignment it was made with.
///
/// The region is a window into a slightly larger allocation; the window's
/// place is fixed when the buffer is made and the allocation is never resized,
/// so the window stays where it is for as long as the buffer lives.
pub struct AlignedBuffer {
    storage: Vec<u8>,
    offset: usize,
    size: usize,
}

impl View for AlignedBuffer {
    type V = Seq<u8>;

    /// The bytes of the region.
    closed spec fn view(&self) -> Seq<u8> {
        self.storage@.subrange(self.offset as int, self.offset + self.size)
    }
}

impl AlignedBuffer {
    /// The window lies within the allocation.
    pub closed spec fn wf(&self) -> bool {
        self.offset + self.size <= self.storage@.len()
    }

    /// Allocates a zeroed region of `size` bytes aligned to `align` bytes.
    pub fn new(size: usize, align: usize) -> (buffer: AlignedBuffer)
        requires
            align > 0,
            size + align <= usize::MAX,
        ensures
            buffer.wf(),
            buffer@.len() == size,
            forall|i: int| 0 <= i < size ==> buffer@[i] == 0u8,
    {
        let storage = vec![0u8; size + align - 1];
        let offset = padding(base_address(&storage), align);
        AlignedBuffer { storage, offset, size }
    }

    /// The number of bytes in the region.
    pub fn len(&self) -> (size: usize)
        requires
            self.wf(),
        ensures
            size == self@.len(),
    {
        self.size
    }

    /// Sets every byte of the region to `value`.
    pub fn fill(&mut self, value: u8)
        requires
            old(self).wf(),
        ensures
            final(self).wf(),
            final(self)@.len() == old(self)@.len(),
            forall|i: int| 0 <= i < final(self)@.len() ==> final(self)@[i] == value,
    {
        let region = self.as_mut_slice();
        fill_slice(region, value);
    }

    /// The whole region, for reading.
    pub fn as_slice(&self) -> (region: &[u8])
        requires
            self.wf(),
        ensures
            region@ == self@,
    {
        let bytes = self.storage.as_slice();
        assert(self.offset + self.size <= bytes.len());
        vstd::slice::slice_subrange(bytes, self.offset, self.offset + self.size)
    }

    /// The whole region, for writing. What is written through the slice is
    /// what the buffer holds afterwards.
    pub fn as_mut_slice(&mut self) -> (region: &mut [u8])
        requires
            old(self).wf(),
        ensures
            region@ == old(self)@,
            final(region)@.len() == region@.len() ==> final(self).wf(),
            final(region)@.len() == region@.len() ==> final(self)@ == final(region)@,
    {
        let offset = self.offset;
        let size = self.size;
        let (_, rest) = self.storage.as_mut_slice().split_at_mut(offset);
        let (region, _) = rest.split_at_mut(size);
        region
    }
}

} // verus!
