//! Heap-file bookkeeping.
//!
//! A heap file is `page_count` consecutive pages in one file, with no structure
//! linking them. [`PageAllocator`] holds what the heap file decides in memory:
//! how many pages the file has, which deleted pages can be reused, and which
//! page ids may be read. The file I/O itself is done by the caller.
//!
//! The free list lives in memory, so it is not restored when the file is
//! reopened: freed pages reappear as zeroed allocated pages.
use vstd::prelude::*;
use vstd::string::*;

use super::page::{PageId, PAGE_SIZE};
use crate::error::Error;
use crate::text::{dec_chars, push_decimal, text};
use crate::Result;

verus! {

/// The page count and free list of a heap file.
pub struct PageAllocator {
    page_count: u32,
    free_pages: Vec<PageId>,
}

/// The message of the error reported for a file whose length is not a whole number of pages.
pub open spec fn bad_length_message(len: u64) -> Seq<char> {
    "heap file length "@ + dec_chars(len as nat) + " is not a multiple of PAGE_SIZE ("@ + dec_chars(
        PAGE_SIZE as nat,
    ) + ")"@
}

impl PageAllocator {
    /// The number of pages in the file.
    pub closed spec fn spec_page_count(&self) -> u32 {
        self.page_count
    }

    /// The ids of deleted pages, in the order they were freed.
    pub closed spec fn free_list(&self) -> Seq<PageId> {
        self.free_pages@
    }

    /// Every freed page lies within the file.
    pub open spec fn wf(&self) -> bool {
        forall|i: int| 0 <= i < self.free_list().len() ==> (#[trigger] self.free_list()[i]).0
            < self.spec_page_count()
    }

    /// The bookkeeping of a new, empty heap file.
    pub fn new() -> (r: Self)
        ensures
            r.wf(),
            r.spec_page_count() == 0,
            r.free_list() == Seq::<PageId>::empty(),
    {
        PageAllocator { page_count: 0, free_pages: Vec::new() }
    }

    /// The bookkeeping of an existing heap file of `len` bytes: its page count is
    /// derived from the length, which must be a whole number of pages.
    pub fn for_file_length(len: u64) -> (r: Result<Self>)
        ensures
            if len % (PAGE_SIZE as u64) == 0 {
                r matches Ok(a) && a.wf() && a.spec_page_count() == (len / PAGE_SIZE as u64) as u32
                    && a.free_list() == Seq::<PageId>::empty()
            } else {
                r matches Err(Error::Corrupt(m)) && m@ == bad_length_message(len)
            },
    {
        if len % PAGE_SIZE as u64 != 0 {
            let mut m = text("heap file length ");
            push_decimal(&mut m, len);
            m.append(" is not a multiple of PAGE_SIZE (");
            push_decimal(&mut m, PAGE_SIZE as u64);
            m.append(")");
            return Err(Error::Corrupt(m));
        }
        let page_count = (len / PAGE_SIZE as u64) as u32;
        Ok(PageAllocator { page_count, free_pages: Vec::new() })
    }

    /// Number of pages currently stored in the file.
    pub fn page_count(&self) -> (r: u32)
        ensures
            r == self.spec_page_count(),
    {
        self.page_count
    }

    /// The id of the page to allocate next: the most recently freed page if there
    /// is one (it leaves the free list), else the page just past the end of the file.
    pub fn next_page_id(&mut self) -> (id: PageId)
        requires
            old(self).wf(),
        ensures
            final(self).wf(),
            final(self).spec_page_count() == old(self).spec_page_count(),
            old(self).free_list().len() > 0 ==> id.0 < old(self).spec_page_count(),
            old(self).free_list().len() > 0 ==> id == old(self).free_list().last()
                && final(self).free_list() == old(self).free_list().drop_last(),
            old(self).free_list().len() == 0 ==> id == PageId(old(self).spec_page_count())
                && final(self).free_list() == old(self).free_list(),
    {
        match self.free_pages.pop() {
            Some(id) => id,
            None => PageId(self.page_count),
        }
    }

    /// Records that page `id` was written: the file now holds at least `id + 1` pages.
    pub fn note_written(&mut self, id: PageId)
        requires
            old(self).wf(),
            id.0 < u32::MAX,
        ensures
            final(self).wf(),
            final(self).spec_page_count() == if old(self).spec_page_count() > id.0 + 1 {
                old(self).spec_page_count()
            } else {
                (id.0 + 1) as u32
            },
            final(self).free_list() == old(self).free_list(),
    {
        if self.page_count < id.0 + 1 {
            self.page_count = id.0 + 1;
        }
        assert forall|i: int| 0 <= i < self.free_list().len() implies (
        #[trigger] self.free_list()[i]).0 < self.spec_page_count() by {
            assert(self.free_list()[i] == old(self).free_list()[i]);
        }
    }

    /// Checks that page `id` exists in the file.
    pub fn check_page_id(&self, id: PageId) -> (r: Result<()>)
        ensures
            if id.0 < self.spec_page_count() {
                r is Ok
            } else {
                r matches Err(Error::InvalidPageId(i)) && i == id.0
            },
    {
        if id.0 >= self.page_count {
            return Err(Error::InvalidPageId(id.0));
        }
        Ok(())
    }

    /// Puts page `id`, which was just zeroed, on the free list for reuse.
    pub fn release(&mut self, id: PageId)
        requires
            old(self).wf(),
            id.0 < old(self).spec_page_count(),
        ensures
            final(self).wf(),
            final(self).spec_page_count() == old(self).spec_page_count(),
            final(self).free_list() == old(self).free_list().push(id),
    {
        let ghost before = self.free_pages@;
        self.free_pages.push(id);
        assert forall|i: int| 0 <= i < self.free_list().len() implies (
        #[trigger] self.free_list()[i]).0 < self.spec_page_count() by {
            if i < before.len() {
                assert(self.free_list()[i] == old(self).free_list()[i]);
            }
        }
    }
}

} // verus!
