//! Fixed-size pages.
use vstd::prelude::*;

verus! {

/// Size of every page, in bytes.
pub const PAGE_SIZE: usize = 4096;

/// Identifies a page within a heap file (pages are numbered from 0).
#[derive(Debug, Clone, Copy, PartialEq, Eq, Hash, Structural)]
pub struct PageId(pub u32);

/// A page: its id and exactly `PAGE_SIZE` bytes.
pub struct Page {
    pub id: PageId,
    pub data: Vec<u8>,
}

impl Page {
    /// A page holds exactly `PAGE_SIZE` bytes.
    pub open spec fn wf(&self) -> bool {
        self.data@.len() == PAGE_SIZE
    }

    /// A zeroed page with the given id.
    pub fn new(id: PageId) -> (p: Self)
        ensures
            p.wf(),
            p.id == id,
            p.data@ == Seq::new(PAGE_SIZE as nat, |i: int| 0u8),
    {
        Page { id, data: vec![0u8; PAGE_SIZE] }
    }

    /// The page bytes.
    pub fn as_bytes(&self) -> (r: &[u8])
        ensures
            r@ == self.data@,
    {
        self.data.as_slice()
    }

    /// The page bytes, for writing.
    pub fn as_bytes_mut(&mut self) -> (r: &mut [u8])
        ensures
            r@ == old(self).data@,
            final(r)@ == final(self).data@,
            final(self).id == old(self).id,
    {
        self.data.as_mut_slice()
    }
}

} // verus!
