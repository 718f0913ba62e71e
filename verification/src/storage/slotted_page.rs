//! Slotted-page layout.
//!
//! ```text
//! +------------------+  offset 0
//! | Page Header      |  magic, page_id, num_slots, free_start, free_end
//! +------------------+
//! | Slot Directory   |  one u16 offset per record (grows downward)
//! +------------------+  <- free_start
//! |   Free Space     |
//! +------------------+  <- free_end
//! | Records          |  length-prefixed records (grow upward)
//! +------------------+  offset 4096
//! ```
//!
//! A record only fits when
//! `free_end - free_start >= record_len + 2 (prefix) + 2 (slot)`.
//! All multi-byte integers are stored big-endian.
use vstd::prelude::*;
use vstd::string::*;

use super::endian::{
    be16_at, be32_at, be32_bytes, lemma_be32_roundtrip, lemma_be_at_window, read_u16, read_u32,
    write_u16, write_u32,
};
use super::page::{Page, PageId, PAGE_SIZE};
use crate::error::Error;
use crate::text::{dec_chars, hex_chars, push_decimal, push_hex, text};
use crate::Result;

verus! {

/// Identifies a slot within a page.
pub type SlotId = u16;

/// Magic number written at the start of every slotted page.
pub const MAGIC: u32 = 0xBA5A_5D70;

/// Fixed header size in bytes.
pub const HEADER_SIZE: usize = 16;

/// Every slot is a single u16 offset.
pub const SLOT_SIZE: usize = 2;

/// Bytes reserved in front of each record for its length.
pub const LENGTH_PREFIX_SIZE: usize = 2;

/// A slot holding this offset is considered deleted.
pub const DELETED: u16 = 0;

pub const MAGIC_OFFSET: usize = 0;

pub const PAGE_ID_OFFSET: usize = 4;

pub const NUM_SLOTS_OFFSET: usize = 8;

pub const FREE_START_OFFSET: usize = 10;

pub const FREE_END_OFFSET: usize = 12;

/// The magic number stored in the header of `b`.
pub open spec fn magic_of(b: Seq<u8>) -> int {
    be32_at(b, MAGIC_OFFSET as int)
}

/// The page id stored in the header of `b`.
pub open spec fn header_id_of(b: Seq<u8>) -> int {
    be32_at(b, PAGE_ID_OFFSET as int)
}

/// The number of slots stored in the header of `b`.
pub open spec fn num_slots_of(b: Seq<u8>) -> int {
    be16_at(b, NUM_SLOTS_OFFSET as int)
}

/// The start of the free region stored in the header of `b`.
pub open spec fn free_start_of(b: Seq<u8>) -> int {
    be16_at(b, FREE_START_OFFSET as int)
}

/// The end of the free region stored in the header of `b`.
pub open spec fn free_end_of(b: Seq<u8>) -> int {
    be16_at(b, FREE_END_OFFSET as int)
}

/// The record offset stored in slot `s` of `b`.
pub open spec fn slot_entry(b: Seq<u8>, s: int) -> int {
    be16_at(b, HEADER_SIZE + SLOT_SIZE * s)
}

/// Why a page header fails validation.
pub enum HeaderFault {
    BadMagic(u32),
    WrongPageId(u32),
    FreeStartOutOfRange(u16),
    FreeEndOutOfRange(u16),
    SlotsOverlapHeader,
}

/// The first check, in order, that the header of `b` fails for page `id`.
pub open spec fn header_fault(b: Seq<u8>, id: u32) -> Option<HeaderFault> {
    if magic_of(b) != MAGIC {
        Some(HeaderFault::BadMagic(magic_of(b) as u32))
    } else if header_id_of(b) != id {
        Some(HeaderFault::WrongPageId(header_id_of(b) as u32))
    } else if !(HEADER_SIZE <= free_start_of(b) <= PAGE_SIZE) {
        Some(HeaderFault::FreeStartOutOfRange(free_start_of(b) as u16))
    } else if !(free_start_of(b) <= free_end_of(b) <= PAGE_SIZE) {
        Some(HeaderFault::FreeEndOutOfRange(free_end_of(b) as u16))
    } else if num_slots_of(b) * SLOT_SIZE > free_start_of(b) - HEADER_SIZE {
        Some(HeaderFault::SlotsOverlapHeader)
    } else {
        None
    }
}

/// `"page {id}: "`, the prefix of every corruption message.
pub open spec fn page_prefix(id: u32) -> Seq<char> {
    "page "@ + dec_chars(id as nat) + ": "@
}

/// The message of the corruption error reported for `fault` on page `id`.
pub open spec fn header_fault_message(id: u32, fault: HeaderFault) -> Seq<char> {
    match fault {
        HeaderFault::BadMagic(m) => page_prefix(id) + "bad magic 0x"@ + hex_chars(m as nat, 8),
        HeaderFault::WrongPageId(h) => page_prefix(id) + "header claims page "@ + dec_chars(
            h as nat,
        ),
        HeaderFault::FreeStartOutOfRange(v) => page_prefix(id) + "free_start "@ + dec_chars(
            v as nat,
        ) + " out of range"@,
        HeaderFault::FreeEndOutOfRange(v) => page_prefix(id) + "free_end "@ + dec_chars(v as nat)
            + " out of range"@,
        HeaderFault::SlotsOverlapHeader => page_prefix(id) + "slot directory overlaps header"@,
    }
}

/// Why a record cannot be returned.
pub enum RecordFault {
    /// The slot is out of range or deleted.
    NoSuchSlot,
    /// The slot points outside the page.
    PointsOutside,
    /// The record's length runs past the end of the page.
    LengthOutOfBounds,
}

/// The record stored in `slot` of `b`, or why there is none.
pub open spec fn record_lookup(b: Seq<u8>, slot: int) -> core::result::Result<Seq<u8>, RecordFault> {
    if slot >= num_slots_of(b) {
        Err(RecordFault::NoSuchSlot)
    } else {
        let off = slot_entry(b, slot);
        if off == DELETED {
            Err(RecordFault::NoSuchSlot)
        } else if off < HEADER_SIZE || off + LENGTH_PREFIX_SIZE > PAGE_SIZE {
            Err(RecordFault::PointsOutside)
        } else {
            let len = be16_at(b, off);
            if off + LENGTH_PREFIX_SIZE + len > PAGE_SIZE {
                Err(RecordFault::LengthOutOfBounds)
            } else {
                Ok(b.subrange(off + LENGTH_PREFIX_SIZE, off + LENGTH_PREFIX_SIZE + len))
            }
        }
    }
}

/// The message of the corruption error reported for `fault` on `slot` of page `id`.
pub open spec fn record_fault_message(id: u32, slot: u16, fault: RecordFault) -> Seq<char> {
    match fault {
        RecordFault::PointsOutside => page_prefix(id) + "slot "@ + dec_chars(slot as nat)
            + " points outside the page"@,
        _ => page_prefix(id) + "slot "@ + dec_chars(slot as nat) + " length out of bounds"@,
    }
}

/// `b` with the big-endian bytes of `v` written at `off`.
pub open spec fn put16(b: Seq<u8>, off: int, v: int) -> Seq<u8> {
    b.update(off, (v / 256) as u8).update(off + 1, (v % 256) as u8)
}

/// `b` with `d` written at `off`.
pub open spec fn put_bytes(b: Seq<u8>, off: int, d: Seq<u8>) -> Seq<u8> {
    b.subrange(0, off) + d + b.subrange(off + d.len(), b.len() as int)
}

/// The bytes of page `b` after inserting the record `d`.
pub open spec fn inserted_bytes(b: Seq<u8>, d: Seq<u8>) -> Seq<u8> {
    let rs = free_end_of(b) - d.len() - LENGTH_PREFIX_SIZE;
    let sp = HEADER_SIZE + num_slots_of(b) * SLOT_SIZE;
    let b1 = put_bytes(put16(b, rs, d.len() as int), rs + LENGTH_PREFIX_SIZE, d);
    let b2 = put16(put16(b1, sp, rs), NUM_SLOTS_OFFSET as int, num_slots_of(b) + 1);
    put16(put16(b2, FREE_END_OFFSET as int, rs), FREE_START_OFFSET as int, sp + SLOT_SIZE)
}

/// A page is well laid out: every live slot points at a record inside the record
/// region, and the slot directory ends exactly where the free region starts.
pub open spec fn consistent(b: Seq<u8>) -> bool {
    &&& num_slots_of(b) * SLOT_SIZE == free_start_of(b) - HEADER_SIZE
    &&& forall|s: int|
        0 <= s < num_slots_of(b) ==> {
            let off = #[trigger] slot_entry(b, s);
            off == DELETED || (free_end_of(b) <= off && off + LENGTH_PREFIX_SIZE <= PAGE_SIZE
                && off + LENGTH_PREFIX_SIZE + be16_at(b, off) <= PAGE_SIZE)
        }
}

/// The records of a page, slot by slot (`None` for a deleted slot).
pub open spec fn records(b: Seq<u8>) -> Seq<Option<Seq<u8>>> {
    Seq::new(
        num_slots_of(b) as nat,
        |s: int|
            match record_lookup(b, s) {
                Ok(r) => Some(r),
                Err(_) => None,
            },
    )
}

/// Reading a big-endian `u16` after `put16`: the value written, or what was there.
pub proof fn lemma_put16_read(b: Seq<u8>, off: int, v: int, x: int)
    requires
        0 <= off,
        off + 2 <= b.len(),
        0 <= x,
        x + 2 <= b.len(),
        0 <= v < 65536,
    ensures
        put16(b, off, v).len() == b.len(),
        x == off ==> be16_at(put16(b, off, v), x) == v,
        (x + 2 <= off || off + 2 <= x) ==> be16_at(put16(b, off, v), x) == be16_at(b, x),
{
}

/// What `inserted_bytes` leaves untouched, and the header it writes.
pub proof fn lemma_inserted_bytes(b: Seq<u8>, d: Seq<u8>)
    requires
        b.len() == PAGE_SIZE,
        HEADER_SIZE <= free_start_of(b) <= free_end_of(b) <= PAGE_SIZE,
        num_slots_of(b) * SLOT_SIZE <= free_start_of(b) - HEADER_SIZE,
        d.len() + LENGTH_PREFIX_SIZE + SLOT_SIZE <= free_end_of(b) - free_start_of(b),
    ensures
        ({
            let n = inserted_bytes(b, d);
            let rs = free_end_of(b) - d.len() - LENGTH_PREFIX_SIZE;
            let sp = HEADER_SIZE + num_slots_of(b) * SLOT_SIZE;
            &&& n.len() == PAGE_SIZE
            &&& forall|k: int|
                0 <= k < PAGE_SIZE && !(NUM_SLOTS_OFFSET <= k < HEADER_SIZE) && !(sp <= k < sp
                    + 2) && !(rs <= k < free_end_of(b)) ==> #[trigger] n[k] == b[k]
            &&& n.subrange(rs + LENGTH_PREFIX_SIZE, free_end_of(b)) == d
            &&& be16_at(n, rs) == d.len()
            &&& slot_entry(n, num_slots_of(b)) == rs
            &&& num_slots_of(n) == num_slots_of(b) + 1
            &&& free_end_of(n) == rs
            &&& free_start_of(n) == sp + SLOT_SIZE
        }),
{
    let rs = free_end_of(b) - d.len() - LENGTH_PREFIX_SIZE;
    let sp = HEADER_SIZE + num_slots_of(b) * SLOT_SIZE;
    let ns = num_slots_of(b);
    let a0 = put16(b, rs, d.len() as int);
    let a1 = put_bytes(a0, rs + LENGTH_PREFIX_SIZE, d);
    let a2 = put16(a1, sp, rs);
    let a3 = put16(a2, NUM_SLOTS_OFFSET as int, ns + 1);
    let a4 = put16(a3, FREE_END_OFFSET as int, rs);
    let n = put16(a4, FREE_START_OFFSET as int, sp + SLOT_SIZE);
    assert(n == inserted_bytes(b, d));
    assert(a1.len() == PAGE_SIZE);
    assert forall|k: int| 0 <= k < PAGE_SIZE && !(rs <= k < free_end_of(b)) implies #[trigger] a1[k]
        == b[k] by {
        if k < rs + LENGTH_PREFIX_SIZE {
            assert(a1[k] == a0[k]);
        } else {
            assert(a1[k] == a0[k]);
        }
    }
    assert(a1.subrange(rs + LENGTH_PREFIX_SIZE, free_end_of(b)) =~= d);
    assert(n.subrange(rs + LENGTH_PREFIX_SIZE, free_end_of(b)) =~= a1.subrange(
        rs + LENGTH_PREFIX_SIZE,
        free_end_of(b),
    ));
    lemma_put16_read(a1, sp, rs, rs);
    assert(be16_at(a1, rs) == d.len()) by {
        assert(a1[rs] == a0[rs] && a1[rs + 1] == a0[rs + 1]);
        lemma_put16_read(b, rs, d.len() as int, rs);
    }
    lemma_put16_read(a1, sp, rs, sp);
    lemma_put16_read(a2, NUM_SLOTS_OFFSET as int, ns + 1, sp);
    lemma_put16_read(a3, FREE_END_OFFSET as int, rs, sp);
    lemma_put16_read(a4, FREE_START_OFFSET as int, sp + SLOT_SIZE, sp);
    lemma_put16_read(a2, NUM_SLOTS_OFFSET as int, ns + 1, rs);
    lemma_put16_read(a3, FREE_END_OFFSET as int, rs, rs);
    lemma_put16_read(a4, FREE_START_OFFSET as int, sp + SLOT_SIZE, rs);
    lemma_put16_read(a2, NUM_SLOTS_OFFSET as int, ns + 1, NUM_SLOTS_OFFSET as int);
    lemma_put16_read(a3, FREE_END_OFFSET as int, rs, NUM_SLOTS_OFFSET as int);
    lemma_put16_read(a4, FREE_START_OFFSET as int, sp + SLOT_SIZE, NUM_SLOTS_OFFSET as int);
    lemma_put16_read(a3, FREE_END_OFFSET as int, rs, FREE_END_OFFSET as int);
    lemma_put16_read(a4, FREE_START_OFFSET as int, sp + SLOT_SIZE, FREE_END_OFFSET as int);
    lemma_put16_read(a4, FREE_START_OFFSET as int, sp + SLOT_SIZE, FREE_START_OFFSET as int);
}

/// Pages that agree on their first 16 bytes have the same header fields.
pub proof fn lemma_same_header(n: Seq<u8>, b: Seq<u8>)
    requires
        n.len() >= HEADER_SIZE,
        b.len() >= HEADER_SIZE,
        forall|k: int| 0 <= k < HEADER_SIZE ==> #[trigger] n[k] == b[k],
    ensures
        magic_of(n) == magic_of(b),
        header_id_of(n) == header_id_of(b),
        num_slots_of(n) == num_slots_of(b),
        free_start_of(n) == free_start_of(b),
        free_end_of(n) == free_end_of(b),
{
    assert(n[0] == b[0] && n[1] == b[1] && n[2] == b[2] && n[3] == b[3]);
    assert(n[4] == b[4] && n[5] == b[5] && n[6] == b[6] && n[7] == b[7]);
    assert(n[8] == b[8] && n[9] == b[9] && n[10] == b[10] && n[11] == b[11]);
    assert(n[12] == b[12] && n[13] == b[13]);
}

/// Inserting into a page keeps its header valid and uses exactly the space it needs.
pub proof fn lemma_insert_header(b: Seq<u8>, id: u32, d: Seq<u8>)
    requires
        b.len() == PAGE_SIZE,
        header_fault(b, id) is None,
        d.len() + LENGTH_PREFIX_SIZE + SLOT_SIZE <= free_end_of(b) - free_start_of(b),
    ensures
        header_fault(inserted_bytes(b, d), id) is None,
        num_slots_of(inserted_bytes(b, d)) == num_slots_of(b) + 1,
        num_slots_of(b) * SLOT_SIZE == free_start_of(b) - HEADER_SIZE ==> free_end_of(
            inserted_bytes(b, d),
        ) - free_start_of(inserted_bytes(b, d)) == free_end_of(b) - free_start_of(b) - (d.len()
            + LENGTH_PREFIX_SIZE + SLOT_SIZE),
{
    let n = inserted_bytes(b, d);
    lemma_inserted_bytes(b, d);
    assert(n[0] == b[0] && n[1] == b[1] && n[2] == b[2] && n[3] == b[3]);
    assert(n[4] == b[4] && n[5] == b[5] && n[6] == b[6] && n[7] == b[7]);
}

/// Inserting into a well laid out page keeps it well laid out.
pub proof fn lemma_insert_consistent(b: Seq<u8>, id: u32, d: Seq<u8>)
    requires
        b.len() == PAGE_SIZE,
        header_fault(b, id) is None,
        d.len() + LENGTH_PREFIX_SIZE + SLOT_SIZE <= free_end_of(b) - free_start_of(b),
        consistent(b),
    ensures
        consistent(inserted_bytes(b, d)),
{
    let n = inserted_bytes(b, d);
    let ns = num_slots_of(b);
    lemma_inserted_bytes(b, d);
    assert forall|s: int| 0 <= s < num_slots_of(n) implies {
        let off = #[trigger] slot_entry(n, s);
        off == DELETED || (free_end_of(n) <= off && off + LENGTH_PREFIX_SIZE <= PAGE_SIZE && off
            + LENGTH_PREFIX_SIZE + be16_at(n, off) <= PAGE_SIZE)
    } by {
        if s < ns {
            let p = HEADER_SIZE + SLOT_SIZE * s;
            assert(n[p] == b[p] && n[p + 1] == b[p + 1]);
            assert(slot_entry(n, s) == slot_entry(b, s));
            let off = slot_entry(b, s);
            if off != DELETED {
                assert(n[off] == b[off] && n[off + 1] == b[off + 1]);
            }
        }
    }
}

/// Inserting into a well laid out page appends exactly one record.
pub proof fn lemma_insert_records(b: Seq<u8>, id: u32, d: Seq<u8>)
    requires
        b.len() == PAGE_SIZE,
        header_fault(b, id) is None,
        d.len() + LENGTH_PREFIX_SIZE + SLOT_SIZE <= free_end_of(b) - free_start_of(b),
        consistent(b),
    ensures
        records(inserted_bytes(b, d)) == records(b).push(Some(d)),
{
    let n = inserted_bytes(b, d);
    let ns = num_slots_of(b);
    lemma_inserted_bytes(b, d);
    assert forall|s: int| 0 <= s < ns + 1 implies #[trigger] records(n)[s] == records(b).push(
        Some(d),
    )[s] by {
        if s < ns {
            let p = HEADER_SIZE + SLOT_SIZE * s;
            assert(n[p] == b[p] && n[p + 1] == b[p + 1]);
            assert(slot_entry(n, s) == slot_entry(b, s));
            let off = slot_entry(b, s);
            if off != DELETED {
                assert(n[off] == b[off] && n[off + 1] == b[off + 1]);
                let len = be16_at(b, off);
                assert(n.subrange(off + 2, off + 2 + len) =~= b.subrange(off + 2, off + 2 + len));
            }
        } else {
            assert(record_lookup(n, s) == Ok::<Seq<u8>, RecordFault>(d));
        }
    }
    assert(records(n) =~= records(b).push(Some(d)));
}

/// Marking slot `s` deleted keeps a well laid out page well laid out and only
/// removes that slot's record.
pub proof fn lemma_delete_keeps_layout(b: Seq<u8>, id: u32, s: int)
    requires
        b.len() == PAGE_SIZE,
        header_fault(b, id) is None,
        0 <= s < num_slots_of(b),
    ensures
        header_fault(put16(b, HEADER_SIZE + SLOT_SIZE * s, 0), id) is None,
        num_slots_of(put16(b, HEADER_SIZE + SLOT_SIZE * s, 0)) == num_slots_of(b),
        consistent(b) ==> consistent(put16(b, HEADER_SIZE + SLOT_SIZE * s, 0)),
        consistent(b) ==> records(put16(b, HEADER_SIZE + SLOT_SIZE * s, 0)) == records(b).update(
            s,
            None,
        ),
{
    let p = HEADER_SIZE + SLOT_SIZE * s;
    let n = put16(b, p, 0);
    lemma_same_header(n, b);
    if consistent(b) {
        assert forall|t: int| 0 <= t < num_slots_of(n) implies {
            let off = #[trigger] slot_entry(n, t);
            off == DELETED || (free_end_of(n) <= off && off + LENGTH_PREFIX_SIZE <= PAGE_SIZE
                && off + LENGTH_PREFIX_SIZE + be16_at(n, off) <= PAGE_SIZE)
        } by {
            if t != s {
                let q = HEADER_SIZE + SLOT_SIZE * t;
                assert(n[q] == b[q] && n[q + 1] == b[q + 1]);
                let off = slot_entry(b, t);
                if off != DELETED {
                    assert(n[off] == b[off] && n[off + 1] == b[off + 1]);
                }
            }
        }
        assert(records(n) =~= records(b).update(s, None)) by {
            assert forall|t: int| 0 <= t < num_slots_of(b) implies #[trigger] records(n)[t]
                == records(b).update(s, None)[t] by {
                if t != s {
                    let q = HEADER_SIZE + SLOT_SIZE * t;
                    assert(n[q] == b[q] && n[q + 1] == b[q + 1]);
                    let off = slot_entry(b, t);
                    if off != DELETED {
                        assert(n[off] == b[off] && n[off + 1] == b[off + 1]);
                        let len = be16_at(b, off);
                        assert(n.subrange(off + 2, off + 2 + len) =~= b.subrange(
                            off + 2,
                            off + 2 + len,
                        ));
                    }
                }
            }
        }
    }
}

/// A [`Page`] interpreted with a slotted-page layout.
pub struct SlottedPage {
    page: Page,
}

impl SlottedPage {
    /// The bytes of the underlying page.
    pub closed spec fn bytes(&self) -> Seq<u8> {
        self.page.data@
    }

    /// The id of the underlying page.
    pub closed spec fn id(&self) -> PageId {
        self.page.id
    }

    /// The underlying page.
    pub closed spec fn spec_page(&self) -> Page {
        self.page
    }

    /// The page holds `PAGE_SIZE` bytes and its header passes validation.
    pub open spec fn wf(&self) -> bool {
        &&& self.bytes().len() == PAGE_SIZE
        &&& header_fault(self.bytes(), self.id().0) is None
    }

    /// Wraps a page and initializes its header; the rest of the page is kept.
    pub fn new(page: Page) -> (sp: Self)
        requires
            page.wf(),
        ensures
            sp.wf(),
            sp.id() == page.id,
            sp.spec_page().id == page.id,
            magic_of(sp.bytes()) == MAGIC,
            header_id_of(sp.bytes()) == page.id.0,
            num_slots_of(sp.bytes()) == 0,
            free_start_of(sp.bytes()) == HEADER_SIZE,
            free_end_of(sp.bytes()) == PAGE_SIZE,
            sp.bytes().subrange(HEADER_SIZE as int, PAGE_SIZE as int) == page.data@.subrange(
                HEADER_SIZE as int,
                PAGE_SIZE as int,
            ),
            consistent(sp.bytes()),
            records(sp.bytes()) == Seq::<Option<Seq<u8>>>::empty(),
    {
        let mut sp = SlottedPage { page };
        let id = sp.page.id.0;
        write_u32(&mut sp.page.data, MAGIC_OFFSET, MAGIC);
        let ghost b0 = sp.page.data@;
        write_u32(&mut sp.page.data, PAGE_ID_OFFSET, id);
        let ghost b1 = sp.page.data@;
        assert(b1.subrange(0, 4) =~= be32_bytes(MAGIC).subrange(0, 4)) by {
            assert(forall|k: int| 0 <= k < 4 ==> b0[k] == #[trigger] be32_bytes(MAGIC)[k]);
        }
        assert(b1.subrange(4, 8) =~= be32_bytes(id).subrange(0, 4));
        write_u16(&mut sp.page.data, NUM_SLOTS_OFFSET, 0);
        write_u16(&mut sp.page.data, FREE_START_OFFSET, HEADER_SIZE as u16);
        write_u16(&mut sp.page.data, FREE_END_OFFSET, PAGE_SIZE as u16);
        proof {
            let b = sp.page.data@;
            lemma_be32_roundtrip(MAGIC);
            lemma_be32_roundtrip(id);
            assert(b.subrange(0, 8) =~= b1.subrange(0, 8));
            lemma_be_at_window(b, b1, 0, 0, 8);
            lemma_be_at_window(b1, be32_bytes(MAGIC), 0, 0, 4);
            lemma_be_at_window(b1, be32_bytes(id), 4, 0, 4);
            assert(b.subrange(HEADER_SIZE as int, PAGE_SIZE as int) =~= page.data@.subrange(
                HEADER_SIZE as int,
                PAGE_SIZE as int,
            ));
            assert(records(b) =~= Seq::<Option<Seq<u8>>>::empty());
        }
        sp
    }

    /// Interprets an existing page as a slotted page, validating its header.
    pub fn from_page(page: Page) -> (r: Result<Self>)
        requires
            page.wf(),
        ensures
            match header_fault(page.data@, page.id.0) {
                None => r matches Ok(sp) && sp.spec_page() == page && sp.bytes() == page.data@
                    && sp.id() == page.id && sp.wf(),
                Some(f) => r matches Err(Error::Corrupt(m)) && m@ == header_fault_message(
                    page.id.0,
                    f,
                ),
            },
    {
        let id = page.id.0;
        let bytes = page.as_bytes();
        let magic = read_u32(bytes, MAGIC_OFFSET);
        if magic != MAGIC {
            return Err(header_fault_error(id, HeaderFault::BadMagic(magic)));
        }
        let header_page_id = read_u32(bytes, PAGE_ID_OFFSET);
        if header_page_id != id {
            return Err(header_fault_error(id, HeaderFault::WrongPageId(header_page_id)));
        }
        let num_slots = read_u16(bytes, NUM_SLOTS_OFFSET) as usize;
        let free_start = read_u16(bytes, FREE_START_OFFSET);
        let free_end = read_u16(bytes, FREE_END_OFFSET);
        if !(HEADER_SIZE <= free_start as usize && free_start as usize <= PAGE_SIZE) {
            return Err(header_fault_error(id, HeaderFault::FreeStartOutOfRange(free_start)));
        }
        if !(free_start <= free_end && free_end as usize <= PAGE_SIZE) {
            return Err(header_fault_error(id, HeaderFault::FreeEndOutOfRange(free_end)));
        }
        if num_slots * SLOT_SIZE > free_start as usize - HEADER_SIZE {
            return Err(header_fault_error(id, HeaderFault::SlotsOverlapHeader));
        }
        Ok(SlottedPage { page })
    }

    /// Returns `true` if the page is all zeros (never written to disk).
    pub fn is_empty_page(page: &Page) -> (r: bool)
        requires
            page.wf(),
        ensures
            r == (forall|i: int| 0 <= i < PAGE_SIZE ==> #[trigger] page.data@[i] == 0),
    {
        let b = page.as_bytes();
        let mut i: usize = 0;
        while i < b.len()
            invariant
                b@ == page.data@,
                b@.len() == PAGE_SIZE,
                i <= b@.len(),
                forall|k: int| 0 <= k < i ==> #[trigger] b@[k] == 0,
            decreases b@.len() - i,
        {
            if b[i] != 0 {
                return false;
            }
            i = i + 1;
        }
        true
    }

    /// Borrows the underlying raw page.
    pub fn page(&self) -> (r: &Page)
        ensures
            *r == self.spec_page(),
            r.data@ == self.bytes(),
            r.id == self.id(),
    {
        &self.page
    }

    /// Consumes the wrapper, returning the raw page.
    pub fn into_page(self) -> (r: Page)
        ensures
            r == self.spec_page(),
            r.data@ == self.bytes(),
            r.id == self.id(),
    {
        self.page
    }

    /// The id of the underlying page.
    pub fn page_id(&self) -> (r: PageId)
        ensures
            r == self.id(),
    {
        self.page.id
    }

    /// Number of slots currently in the directory (including deleted ones).
    pub fn num_slots(&self) -> (r: u16)
        requires
            self.wf(),
        ensures
            r == num_slots_of(self.bytes()),
    {
        self.read_u16(NUM_SLOTS_OFFSET)
    }

    /// Bytes currently available for new records.
    pub fn free_space(&self) -> (r: usize)
        requires
            self.wf(),
        ensures
            r == free_end_of(self.bytes()) - free_start_of(self.bytes()),
    {
        let start = self.read_u16(FREE_START_OFFSET) as usize;
        let end = self.read_u16(FREE_END_OFFSET) as usize;
        end - start
    }

    /// Whether a record of `data_len` bytes fits without a page-full error.
    pub fn has_space_for(&self, data_len: usize) -> (r: bool)
        requires
            self.wf(),
        ensures
            r == (free_end_of(self.bytes()) - free_start_of(self.bytes()) >= data_len
                + LENGTH_PREFIX_SIZE + SLOT_SIZE),
    {
        let free = self.free_space();
        free >= LENGTH_PREFIX_SIZE + SLOT_SIZE && free - (LENGTH_PREFIX_SIZE + SLOT_SIZE)
            >= data_len
    }

    /// Inserts `data` and returns the id of the new slot.
    #[verifier::rlimit(50)]
    pub fn insert_record(&mut self, data: &[u8]) -> (r: Result<SlotId>)
        requires
            old(self).wf(),
            data@.len() + LENGTH_PREFIX_SIZE + SLOT_SIZE <= usize::MAX,
        ensures
            final(self).wf(),
            final(self).id() == old(self).id(),
            final(self).bytes() == page_step(old(self).bytes(), PageOp::Insert(data@)),
            ({
                let b = old(self).bytes();
                let needed = data@.len() + LENGTH_PREFIX_SIZE + SLOT_SIZE;
                let free = free_end_of(b) - free_start_of(b);
                if needed > free {
                    &&& r matches Err(Error::PageFull { needed: n, free: f })
                    &&& n == needed
                    &&& f == free
                    &&& final(self).bytes() == b
                } else {
                    &&& r matches Ok(slot)
                    &&& slot == num_slots_of(b)
                    &&& final(self).bytes() == inserted_bytes(b, data@)
                    &&& num_slots_of(final(self).bytes()) == num_slots_of(b) + 1
                    &&& num_slots_of(b) * SLOT_SIZE == free_start_of(b) - HEADER_SIZE ==> free_end_of(
                        final(self).bytes(),
                    ) - free_start_of(final(self).bytes()) == free - needed
                    &&& consistent(b) ==> consistent(final(self).bytes())
                    &&& consistent(b) ==> records(final(self).bytes()) == records(b).push(
                        Some(data@),
                    )
                }
            }),
    {
        let ghost b = self.page.data@;
        let needed = data.len() + LENGTH_PREFIX_SIZE + SLOT_SIZE;
        let free = self.free_space();
        if needed > free {
            return Err(Error::PageFull { needed, free });
        }
        proof {
            lemma_inserted_bytes(b, data@);
            lemma_insert_header(b, self.page.id.0, data@);
            if consistent(b) {
                lemma_insert_consistent(b, self.page.id.0, data@);
                lemma_insert_records(b, self.page.id.0, data@);
            }
        }
        let free_end = self.read_u16(FREE_END_OFFSET) as usize;
        let record_start = free_end - data.len() - LENGTH_PREFIX_SIZE;

        // Write the length-prefixed record into the free space.
        write_u16(&mut self.page.data, record_start, data.len() as u16);
        let data_start = record_start + LENGTH_PREFIX_SIZE;
        let ghost b0 = self.page.data@;
        let ghost id = self.page.id;
        let mut i: usize = 0;
        while i < data.len()
            invariant
                0 <= i <= data@.len(),
                data_start + data@.len() <= PAGE_SIZE,
                b0.len() == PAGE_SIZE,
                self.page.id == id,
                self.page.data@ == put_bytes(b0, data_start as int, data@.subrange(0, i as int)),
            decreases data@.len() - i,
        {
            let ghost prev = self.page.data@;
            self.page.data.set(data_start + i, data[i]);
            i = i + 1;
            assert(self.page.data@ =~= put_bytes(
                b0,
                data_start as int,
                data@.subrange(0, i as int),
            ));
        }
        assert(data@.subrange(0, data@.len() as int) =~= data@);

        // Append a new slot to the directory.
        let slot_index = self.read_u16(NUM_SLOTS_OFFSET);
        let slot_pos = HEADER_SIZE + slot_index as usize * SLOT_SIZE;
        write_u16(&mut self.page.data, slot_pos, record_start as u16);
        write_u16(&mut self.page.data, NUM_SLOTS_OFFSET, slot_index + 1);
        write_u16(&mut self.page.data, FREE_END_OFFSET, record_start as u16);
        write_u16(&mut self.page.data, FREE_START_OFFSET, (slot_pos + SLOT_SIZE) as u16);
        assert(self.page.data@ =~= inserted_bytes(b, data@));
        Ok(slot_index)
    }

    /// Returns the record stored in `slot`.
    ///
    /// Fails if the slot is out of range or was deleted, or if the slot points
    /// outside the page.
    pub fn get_record(&self, slot: SlotId) -> (r: Result<&[u8]>)
        requires
            self.wf(),
        ensures
            match record_lookup(self.bytes(), slot as int) {
                Ok(rec) => r matches Ok(x) && x@ == rec,
                Err(RecordFault::NoSuchSlot) => r matches Err(Error::InvalidSlot(s)) && s == slot,
                Err(f) => r matches Err(Error::Corrupt(m)) && m@ == record_fault_message(
                    self.id().0,
                    slot,
                    f,
                ),
            },
            consistent(self.bytes()) && (slot as int) < num_slots_of(self.bytes()) ==> (match records(
                self.bytes(),
            )[slot as int] {
                Some(rec) => r matches Ok(x) && x@ == rec,
                None => r is Err,
            }),
    {
        if slot >= self.num_slots() {
            return Err(Error::InvalidSlot(slot));
        }
        let slot_pos = HEADER_SIZE + slot as usize * SLOT_SIZE;
        let record_start = self.read_u16(slot_pos) as usize;
        if record_start == DELETED as usize {
            return Err(Error::InvalidSlot(slot));
        }
        if record_start < HEADER_SIZE || record_start + LENGTH_PREFIX_SIZE > PAGE_SIZE {
            return Err(record_fault_error(self.page.id.0, slot, RecordFault::PointsOutside));
        }
        let len = self.read_u16(record_start) as usize;
        let end = record_start + LENGTH_PREFIX_SIZE + len;
        if end > PAGE_SIZE {
            return Err(record_fault_error(self.page.id.0, slot, RecordFault::LengthOutOfBounds));
        }
        Ok(&self.page.as_bytes()[record_start + LENGTH_PREFIX_SIZE..end])
    }

    /// Returns `true` if `slot` exists but has been deleted.
    pub fn is_deleted(&self, slot: SlotId) -> (r: bool)
        requires
            self.wf(),
        ensures
            r == ((slot as int) < num_slots_of(self.bytes()) && slot_entry(self.bytes(), slot as int)
                == DELETED),
    {
        if slot >= self.num_slots() {
            return false;
        }
        let slot_pos = HEADER_SIZE + slot as usize * SLOT_SIZE;
        self.read_u16(slot_pos) == DELETED
    }

    /// Marks `slot` as deleted. The space is not reclaimed.
    pub fn delete_record(&mut self, slot: SlotId) -> (r: Result<()>)
        requires
            old(self).wf(),
        ensures
            final(self).wf(),
            final(self).id() == old(self).id(),
            final(self).bytes() == page_step(old(self).bytes(), PageOp::Delete(slot as int)),
            ({
                let b = old(self).bytes();
                if (slot as int) < num_slots_of(b) {
                    &&& r is Ok
                    &&& final(self).bytes() == put16(b, HEADER_SIZE + SLOT_SIZE * slot, 0)
                    &&& num_slots_of(final(self).bytes()) == num_slots_of(b)
                    &&& consistent(b) ==> consistent(final(self).bytes())
                    &&& consistent(b) ==> records(final(self).bytes()) == records(b).update(
                        slot as int,
                        None,
                    )
                } else {
                    &&& r matches Err(Error::InvalidSlot(s))
                    &&& s == slot
                    &&& final(self).bytes() == b
                }
            }),
    {
        if slot >= self.num_slots() {
            return Err(Error::InvalidSlot(slot));
        }
        proof {
            lemma_delete_keeps_layout(self.page.data@, self.page.id.0, slot as int);
        }
        let slot_pos = HEADER_SIZE + slot as usize * SLOT_SIZE;
        write_u16(&mut self.page.data, slot_pos, DELETED);
        Ok(())
    }

    fn read_u16(&self, offset: usize) -> (r: u16)
        requires
            self.page.wf(),
            offset + 2 <= PAGE_SIZE,
        ensures
            r == be16_at(self.bytes(), offset as int),
    {
        read_u16(self.page.as_bytes(), offset)
    }
}

/// The corruption error reported for `fault` on page `id`.
fn header_fault_error(id: u32, fault: HeaderFault) -> (e: Error)
    ensures
        e matches Error::Corrupt(m) && m@ == header_fault_message(id, fault),
{
    let mut m = text("page ");
    push_decimal(&mut m, id as u64);
    m.append(": ");
    match fault {
        HeaderFault::BadMagic(magic) => {
            m.append("bad magic 0x");
            push_hex(&mut m, magic as u64, 8);
        },
        HeaderFault::WrongPageId(h) => {
            m.append("header claims page ");
            push_decimal(&mut m, h as u64);
        },
        HeaderFault::FreeStartOutOfRange(v) => {
            m.append("free_start ");
            push_decimal(&mut m, v as u64);
            m.append(" out of range");
        },
        HeaderFault::FreeEndOutOfRange(v) => {
            m.append("free_end ");
            push_decimal(&mut m, v as u64);
            m.append(" out of range");
        },
        HeaderFault::SlotsOverlapHeader => {
            m.append("slot directory overlaps header");
        },
    }
    assert(m@ =~= header_fault_message(id, fault));
    Error::Corrupt(m)
}

/// The corruption error reported for `fault` on `slot` of page `id`.
fn record_fault_error(id: u32, slot: u16, fault: RecordFault) -> (e: Error)
    requires
        !(fault is NoSuchSlot),
    ensures
        e matches Error::Corrupt(m) && m@ == record_fault_message(id, slot, fault),
{
    let mut m = text("page ");
    push_decimal(&mut m, id as u64);
    m.append(": ");
    m.append("slot ");
    push_decimal(&mut m, slot as u64);
    match fault {
        RecordFault::PointsOutside => m.append(" points outside the page"),
        _ => m.append(" length out of bounds"),
    }
    assert(m@ =~= record_fault_message(id, slot, fault));
    Error::Corrupt(m)
}

/// A slotted page written out as a raw page is accepted again when read back:
/// the raw page holds the same bytes under the same id, and its header passes
/// the validation of [`SlottedPage::from_page`], so the same records come back.
pub proof fn lemma_page_round_trip(sp: SlottedPage)
    requires
        sp.wf(),
    ensures
        sp.spec_page().data@ == sp.bytes(),
        sp.spec_page().id == sp.id(),
        header_fault(sp.spec_page().data@, sp.spec_page().id.0) is None,
{
}

/// An operation on a slotted page: inserting a record, or deleting a slot.
pub enum PageOp {
    Insert(Seq<u8>),
    Delete(int),
}

/// The bytes of page `b` after `op`, as [`SlottedPage::insert_record`] and
/// [`SlottedPage::delete_record`] leave them (a refused operation changes nothing).
pub open spec fn page_step(b: Seq<u8>, op: PageOp) -> Seq<u8> {
    match op {
        PageOp::Insert(d) => if d.len() + LENGTH_PREFIX_SIZE + SLOT_SIZE > free_end_of(b)
            - free_start_of(b) {
            b
        } else {
            inserted_bytes(b, d)
        },
        PageOp::Delete(s) => if 0 <= s < num_slots_of(b) {
            put16(b, HEADER_SIZE + SLOT_SIZE * s, 0)
        } else {
            b
        },
    }
}

/// The bytes of page `b` after the operations `ops`, in order.
pub open spec fn page_run(b: Seq<u8>, ops: Seq<PageOp>) -> Seq<u8>
    decreases ops.len(),
{
    if ops.len() == 0 {
        b
    } else {
        page_step(page_run(b, ops.drop_last()), ops.last())
    }
}

/// What a page holds after a history of operations: its records slot by slot
/// (`None` for a deleted slot), and the bytes that records and slots use.
pub struct PageModel {
    pub records: Seq<Option<Seq<u8>>>,
    pub used: int,
}

/// The model of a page that starts empty and undergoes `ops`: an insert succeeds
/// when the record, its length prefix and its slot fit in what is left of the
/// `PAGE_SIZE - HEADER_SIZE` bytes, and adds one slot; a delete of an existing
/// slot empties it and frees nothing.
pub open spec fn model_run(ops: Seq<PageOp>) -> PageModel
    decreases ops.len(),
{
    if ops.len() == 0 {
        PageModel { records: Seq::empty(), used: 0 }
    } else {
        let m = model_run(ops.drop_last());
        match ops.last() {
            PageOp::Insert(d) => if d.len() + LENGTH_PREFIX_SIZE + SLOT_SIZE > PAGE_SIZE
                - HEADER_SIZE - m.used {
                m
            } else {
                PageModel {
                    records: m.records.push(Some(d)),
                    used: m.used + d.len() + LENGTH_PREFIX_SIZE + SLOT_SIZE,
                }
            },
            PageOp::Delete(s) => if 0 <= s < m.records.len() {
                PageModel { records: m.records.update(s, None), used: m.used }
            } else {
                m
            },
        }
    }
}

/// Later records lie below earlier ones: the byte ranges of live records never overlap.
pub open spec fn records_stacked(b: Seq<u8>) -> bool {
    forall|t1: int, t2: int|
        0 <= t1 < t2 < num_slots_of(b) && slot_entry(b, t1) != DELETED && slot_entry(b, t2)
            != DELETED ==> #[trigger] slot_entry(b, t2) + LENGTH_PREFIX_SIZE + be16_at(
            b,
            slot_entry(b, t2),
        ) <= #[trigger] slot_entry(b, t1)
}

/// In a well laid out page, a slot reads as no record exactly when it is deleted.
proof fn lemma_consistent_deleted(b: Seq<u8>, id: u32)
    requires
        b.len() == PAGE_SIZE,
        header_fault(b, id) is None,
        consistent(b),
    ensures
        forall|t: int|
            0 <= t < num_slots_of(b) ==> ((#[trigger] records(b)[t]) is None <==> slot_entry(b, t)
                == DELETED),
{
    assert forall|t: int| 0 <= t < num_slots_of(b) implies ((#[trigger] records(b)[t]) is None
        <==> slot_entry(b, t) == DELETED) by {
        let off = slot_entry(b, t);
        assert(off == DELETED || (free_end_of(b) <= off && off + LENGTH_PREFIX_SIZE <= PAGE_SIZE
            && off + LENGTH_PREFIX_SIZE + be16_at(b, off) <= PAGE_SIZE));
    }
}

/// The record that an insert adds lies below every live record already there.
#[verifier::spinoff_prover]
#[verifier::rlimit(40)]
proof fn lemma_insert_stacked(b: Seq<u8>, id: u32, d: Seq<u8>)
    requires
        b.len() == PAGE_SIZE,
        header_fault(b, id) is None,
        consistent(b),
        records_stacked(b),
        d.len() + LENGTH_PREFIX_SIZE + SLOT_SIZE <= free_end_of(b) - free_start_of(b),
    ensures
        records_stacked(inserted_bytes(b, d)),
{
    let n = inserted_bytes(b, d);
    let ns = num_slots_of(b);
    let rs = free_end_of(b) - d.len() - LENGTH_PREFIX_SIZE;
    lemma_inserted_bytes(b, d);
    assert forall|t: int| 0 <= t < ns implies #[trigger] slot_entry(n, t) == slot_entry(
        b,
        t,
    ) by {
        let q = HEADER_SIZE + SLOT_SIZE * t;
        assert(n[q] == b[q] && n[q + 1] == b[q + 1]);
    }
    assert forall|t1: int, t2: int|
        0 <= t1 < t2 < num_slots_of(n) && slot_entry(n, t1) != DELETED && slot_entry(
            n,
            t2,
        ) != DELETED implies #[trigger] slot_entry(n, t2) + LENGTH_PREFIX_SIZE
        + be16_at(n, slot_entry(n, t2)) <= #[trigger] slot_entry(n, t1) by {
        let o1 = slot_entry(b, t1);
        assert(free_end_of(b) <= o1);
        if t2 < ns {
            let o2 = slot_entry(b, t2);
            assert(free_end_of(b) <= o2 && o2 + LENGTH_PREFIX_SIZE <= PAGE_SIZE);
            assert(n[o2] == b[o2] && n[o2 + 1] == b[o2 + 1]);
            assert(slot_entry(b, t2) + LENGTH_PREFIX_SIZE + be16_at(b, slot_entry(b, t2))
                <= slot_entry(b, t1));
        } else {
            assert(slot_entry(n, t2) == rs);
        }
    }
}

/// An insert, on any page with a valid header whose layout is well formed and
/// whose live records lie one below the other (so never overlap), keeps all of
/// that, appends the record, and uses exactly the space it needs; a refused
/// insert changes nothing.
#[verifier::spinoff_prover]
pub proof fn lemma_insert_step(b: Seq<u8>, id: u32, d: Seq<u8>)
    requires
        b.len() == PAGE_SIZE,
        header_fault(b, id) is None,
        consistent(b),
        records_stacked(b),
    ensures
        ({
            let n = page_step(b, PageOp::Insert(d));
            &&& n.len() == PAGE_SIZE
            &&& header_fault(n, id) is None
            &&& consistent(n)
            &&& records_stacked(n)
            &&& if d.len() + LENGTH_PREFIX_SIZE + SLOT_SIZE > free_end_of(b) - free_start_of(b) {
                n == b
            } else {
                &&& records(n) == records(b).push(Some(d))
                &&& free_end_of(n) - free_start_of(n) == free_end_of(b) - free_start_of(b) - (d.len()
                    + LENGTH_PREFIX_SIZE + SLOT_SIZE)
            }
        }),
{
    if d.len() + LENGTH_PREFIX_SIZE + SLOT_SIZE <= free_end_of(b) - free_start_of(b) {
        let n = inserted_bytes(b, d);
        let ns = num_slots_of(b);
        let rs = free_end_of(b) - d.len() - LENGTH_PREFIX_SIZE;
        let sp = HEADER_SIZE + ns * SLOT_SIZE;
        lemma_inserted_bytes(b, d);
        lemma_insert_header(b, id, d);
        lemma_insert_consistent(b, id, d);
        lemma_insert_records(b, id, d);
        lemma_insert_stacked(b, id, d);
    }
}

/// A delete, on any page with a valid header whose layout is well formed and
/// whose live records lie one below the other, keeps all of that and the free
/// space, and empties the slot; a delete of a slot that does not exist changes
/// nothing.
#[verifier::spinoff_prover]
pub proof fn lemma_delete_step(b: Seq<u8>, id: u32, s: int)
    requires
        b.len() == PAGE_SIZE,
        header_fault(b, id) is None,
        consistent(b),
        records_stacked(b),
    ensures
        ({
            let n = page_step(b, PageOp::Delete(s));
            &&& n.len() == PAGE_SIZE
            &&& header_fault(n, id) is None
            &&& consistent(n)
            &&& records_stacked(n)
            &&& free_end_of(n) - free_start_of(n) == free_end_of(b) - free_start_of(b)
            &&& if 0 <= s < num_slots_of(b) {
                records(n) == records(b).update(s, None)
            } else {
                n == b
            }
        }),
{
    if 0 <= s < num_slots_of(b) {
        let p = HEADER_SIZE + SLOT_SIZE * s;
        let n = put16(b, p, 0);
        lemma_delete_keeps_layout(b, id, s);
        lemma_same_header(n, b);
        assert forall|t: int| 0 <= t < num_slots_of(b) && t != s implies #[trigger] slot_entry(
            n,
            t,
        ) == slot_entry(b, t) by {
            let q = HEADER_SIZE + SLOT_SIZE * t;
            assert(n[q] == b[q] && n[q + 1] == b[q + 1]);
        }
        assert(slot_entry(n, s) == 0);
        assert forall|t1: int, t2: int|
            0 <= t1 < t2 < num_slots_of(n) && slot_entry(n, t1) != DELETED && slot_entry(
                n,
                t2,
            ) != DELETED implies #[trigger] slot_entry(n, t2) + LENGTH_PREFIX_SIZE
            + be16_at(n, slot_entry(n, t2)) <= #[trigger] slot_entry(n, t1) by {
            let o2 = slot_entry(b, t2);
            assert(free_end_of(b) <= o2 && o2 + LENGTH_PREFIX_SIZE <= PAGE_SIZE);
            assert(n[o2] == b[o2] && n[o2 + 1] == b[o2 + 1]);
            assert(slot_entry(b, t2) + LENGTH_PREFIX_SIZE + be16_at(b, slot_entry(b, t2))
                <= slot_entry(b, t1));
        }
    }
}

/// One operation keeps a well laid out page well laid out and follows the model.
proof fn lemma_page_step(b: Seq<u8>, id: u32, op: PageOp, m: PageModel)
    requires
        b.len() == PAGE_SIZE,
        header_fault(b, id) is None,
        consistent(b),
        records_stacked(b),
        records(b) == m.records,
        free_end_of(b) - free_start_of(b) == PAGE_SIZE - HEADER_SIZE - m.used,
    ensures
        ({
            let n = page_step(b, op);
            let m2 = match op {
                PageOp::Insert(d) => if d.len() + LENGTH_PREFIX_SIZE + SLOT_SIZE > PAGE_SIZE
                    - HEADER_SIZE - m.used {
                    m
                } else {
                    PageModel {
                        records: m.records.push(Some(d)),
                        used: m.used + d.len() + LENGTH_PREFIX_SIZE + SLOT_SIZE,
                    }
                },
                PageOp::Delete(s) => if 0 <= s < m.records.len() {
                    PageModel { records: m.records.update(s, None), used: m.used }
                } else {
                    m
                },
            };
            &&& n.len() == PAGE_SIZE
            &&& header_fault(n, id) is None
            &&& consistent(n)
            &&& records_stacked(n)
            &&& records(n) == m2.records
            &&& free_end_of(n) - free_start_of(n) == PAGE_SIZE - HEADER_SIZE - m2.used
        }),
{
    lemma_consistent_deleted(b, id);
    match op {
        PageOp::Insert(d) => lemma_insert_step(b, id, d),
        PageOp::Delete(s) => lemma_delete_step(b, id, s),
    }
}

/// A page that starts empty behaves, under any history of inserts and deletes,
/// as its model: it stays well laid out with a valid header under the same page
/// id; it holds exactly the model's records, so a record, once inserted, reads
/// back unchanged until its slot is deleted; the live records never overlap;
/// the slot count is the number of successful inserts; a slot is deleted
/// exactly when the model's slot is empty; and the free space is
/// `PAGE_SIZE - HEADER_SIZE` less what successful inserts used.
pub proof fn lemma_page_history(b: Seq<u8>, id: u32, ops: Seq<PageOp>)
    requires
        b.len() == PAGE_SIZE,
        header_fault(b, id) is None,
        num_slots_of(b) == 0,
        free_start_of(b) == HEADER_SIZE,
        free_end_of(b) == PAGE_SIZE,
    ensures
        ({
            let n = page_run(b, ops);
            let m = model_run(ops);
            &&& n.len() == PAGE_SIZE
            &&& header_fault(n, id) is None
            &&& consistent(n)
            &&& records_stacked(n)
            &&& records(n) == m.records
            &&& num_slots_of(n) == m.records.len()
            &&& forall|t: int|
                0 <= t < num_slots_of(n) ==> (slot_entry(n, t) == DELETED <==> (#[trigger] m.records[t])
                    is None)
            &&& free_end_of(n) - free_start_of(n) == PAGE_SIZE - HEADER_SIZE - m.used
        }),
    decreases ops.len(),
{
    let n = page_run(b, ops);
    if ops.len() == 0 {
        assert(records(b) =~= Seq::<Option<Seq<u8>>>::empty());
    } else {
        lemma_page_history(b, id, ops.drop_last());
        lemma_page_step(page_run(b, ops.drop_last()), id, ops.last(), model_run(ops.drop_last()));
    }
    lemma_consistent_deleted(n, id);
    assert forall|t: int| 0 <= t < num_slots_of(n) implies (slot_entry(n, t) == DELETED <==> (
    #[trigger] model_run(ops).records[t]) is None) by {
        assert(records(n)[t] == model_run(ops).records[t]);
    }
}


/// The byte range of the record in slot `t`: from its length prefix to its
/// last byte.
pub open spec fn record_span(b: Seq<u8>, t: int) -> (int, int) {
    (slot_entry(b, t) as int, slot_entry(b, t) + LENGTH_PREFIX_SIZE + be16_at(b, slot_entry(b, t)))
}

/// No two live records of the page overlap.
pub open spec fn records_disjoint(b: Seq<u8>) -> bool {
    forall|t1: int, t2: int|
        0 <= t1 < num_slots_of(b) && 0 <= t2 < num_slots_of(b) && t1 != t2 && slot_entry(b, t1)
            != DELETED && slot_entry(b, t2) != DELETED ==> #[trigger] record_span(b, t1).1
            <= #[trigger] record_span(b, t2).0 || record_span(b, t2).1 <= record_span(b, t1).0
}

/// Records that lie one below the other never overlap.
pub proof fn lemma_stacked_disjoint(b: Seq<u8>)
    requires
        records_stacked(b),
    ensures
        records_disjoint(b),
{
    assert forall|t1: int, t2: int|
        0 <= t1 < num_slots_of(b) && 0 <= t2 < num_slots_of(b) && t1 != t2 && slot_entry(b, t1)
            != DELETED && slot_entry(b, t2) != DELETED implies #[trigger] record_span(b, t1).1
        <= #[trigger] record_span(b, t2).0 || record_span(b, t2).1 <= record_span(b, t1).0 by {
        if t1 < t2 {
            assert(slot_entry(b, t2) + LENGTH_PREFIX_SIZE + be16_at(b, slot_entry(b, t2))
                <= slot_entry(b, t1));
        } else {
            assert(slot_entry(b, t1) + LENGTH_PREFIX_SIZE + be16_at(b, slot_entry(b, t1))
                <= slot_entry(b, t2));
        }
    }
}

/// An insert, on any page with a valid header, a well formed layout and live
/// records that do not overlap (in whatever order they lie), keeps all of
/// that. When the record fits, it is appended, and its bytes are exactly the
/// free space given up at the top of the free area: its length prefix starts
/// at the new free end and it ends at the old one. A refused insert changes
/// nothing.
#[verifier::spinoff_prover]
#[verifier::rlimit(40)]
pub proof fn lemma_insert_keeps_disjoint(b: Seq<u8>, id: u32, d: Seq<u8>)
    requires
        b.len() == PAGE_SIZE,
        header_fault(b, id) is None,
        consistent(b),
        records_disjoint(b),
    ensures
        ({
            let n = page_step(b, PageOp::Insert(d));
            &&& n.len() == PAGE_SIZE
            &&& header_fault(n, id) is None
            &&& consistent(n)
            &&& records_disjoint(n)
            &&& if d.len() + LENGTH_PREFIX_SIZE + SLOT_SIZE > free_end_of(b) - free_start_of(b) {
                n == b
            } else {
                &&& records(n) == records(b).push(Some(d))
                &&& record_span(n, num_slots_of(b) as int) == (
                    free_end_of(n) as int,
                    free_end_of(b) as int,
                )
            }
        }),
{
    if d.len() + LENGTH_PREFIX_SIZE + SLOT_SIZE <= free_end_of(b) - free_start_of(b) {
        let n = inserted_bytes(b, d);
        let ns = num_slots_of(b);
        let rs = free_end_of(b) - d.len() - LENGTH_PREFIX_SIZE;
        lemma_inserted_bytes(b, d);
        lemma_insert_header(b, id, d);
        lemma_insert_consistent(b, id, d);
        lemma_insert_records(b, id, d);
        assert forall|t: int| 0 <= t < ns implies #[trigger] slot_entry(n, t) == slot_entry(
            b,
            t,
        ) by {
            let q = HEADER_SIZE + SLOT_SIZE * t;
            assert(n[q] == b[q] && n[q + 1] == b[q + 1]);
        }
        assert forall|t: int| 0 <= t < ns && slot_entry(b, t) != DELETED implies #[trigger] record_span(
            n,
            t,
        ) == record_span(b, t) && free_end_of(b) <= record_span(b, t).0 by {
            let o = slot_entry(b, t);
            assert(free_end_of(b) <= o && o + LENGTH_PREFIX_SIZE <= PAGE_SIZE);
            assert(n[o] == b[o] && n[o + 1] == b[o + 1]);
        }
        assert(record_span(n, ns as int) == (rs, free_end_of(b) as int));
        assert forall|t1: int, t2: int|
            0 <= t1 < num_slots_of(n) && 0 <= t2 < num_slots_of(n) && t1 != t2 && slot_entry(n, t1)
                != DELETED && slot_entry(n, t2) != DELETED implies #[trigger] record_span(n, t1).1
            <= #[trigger] record_span(n, t2).0 || record_span(n, t2).1 <= record_span(n, t1).0 by {
            if t1 < ns && t2 < ns {
                assert(record_span(b, t1).1 <= record_span(b, t2).0 || record_span(b, t2).1
                    <= record_span(b, t1).0);
            }
        }
    }
}

/// A delete keeps the live records of a page from overlapping.
pub proof fn lemma_delete_keeps_disjoint(b: Seq<u8>, id: u32, s: int)
    requires
        b.len() == PAGE_SIZE,
        header_fault(b, id) is None,
        consistent(b),
        records_disjoint(b),
    ensures
        records_disjoint(page_step(b, PageOp::Delete(s))),
{
    if 0 <= s < num_slots_of(b) {
        let p = HEADER_SIZE + SLOT_SIZE * s;
        let n = put16(b, p, 0);
        lemma_delete_keeps_layout(b, id, s);
        assert forall|t: int| 0 <= t < num_slots_of(b) && t != s implies #[trigger] slot_entry(
            n,
            t,
        ) == slot_entry(b, t) by {
            let q = HEADER_SIZE + SLOT_SIZE * t;
            assert(n[q] == b[q] && n[q + 1] == b[q + 1]);
        }
        assert(slot_entry(n, s) == 0);
        assert forall|t: int| 0 <= t < num_slots_of(b) && t != s && slot_entry(b, t) != DELETED
            implies #[trigger] record_span(n, t) == record_span(b, t) by {
            let o = slot_entry(b, t);
            assert(free_end_of(b) <= o && o + LENGTH_PREFIX_SIZE <= PAGE_SIZE);
            assert(n[o] == b[o] && n[o + 1] == b[o + 1]);
        }
    }
}

/// The `i`-th operation of `ops` is a delete of slot `t` that took effect:
/// slot `t` existed when it ran.
pub open spec fn deleted_by(ops: Seq<PageOp>, i: int, t: int) -> bool {
    &&& ops[i] == PageOp::Delete(t)
    &&& 0 <= t < model_run(ops.take(i)).records.len()
}

/// Slots are only ever added: a page has no fewer slots after more operations.
proof fn lemma_model_slots_grow(ops: Seq<PageOp>, i: int)
    requires
        0 <= i <= ops.len(),
    ensures
        model_run(ops.take(i)).records.len() <= model_run(ops).records.len(),
    decreases ops.len(),
{
    if i < ops.len() {
        lemma_model_slots_grow(ops.drop_last(), i);
        assert(ops.drop_last().take(i) =~= ops.take(i));
    } else {
        assert(ops.take(i) =~= ops);
    }
}

/// In the model, a slot is empty exactly when an earlier delete of that slot
/// took effect.
proof fn lemma_model_deleted(ops: Seq<PageOp>, t: int)
    requires
        0 <= t < model_run(ops).records.len(),
    ensures
        model_run(ops).records[t] is None <==> exists|i: int|
            0 <= i < ops.len() && #[trigger] deleted_by(ops, i, t),
    decreases ops.len(),
{
    let p = ops.drop_last();
    let n = ops.len() - 1;
    let m = model_run(p);
    assert(ops.take(n) =~= p);
    assert forall|i: int| 0 <= i < n implies #[trigger] deleted_by(ops, i, t) == deleted_by(
        p,
        i,
        t,
    ) by {
        assert(ops.take(i) =~= p.take(i));
        assert(ops[i] == p[i]);
    }
    if t < m.records.len() {
        lemma_model_deleted(p, t);
        if model_run(ops).records[t] is None {
            if m.records[t] is None {
                let i = choose|i: int| 0 <= i < p.len() && #[trigger] deleted_by(p, i, t);
                assert(deleted_by(ops, i, t));
            } else {
                assert(deleted_by(ops, n, t));
            }
        } else {
            assert forall|i: int| 0 <= i < ops.len() implies !#[trigger] deleted_by(ops, i, t) by {
                if i == n {
                    assert(ops[n] == ops.last());
                } else {
                    assert(!deleted_by(p, i, t));
                }
            }
        }
    } else {
        // Slot `t` was added by the last operation, an insert.
        assert forall|i: int| 0 <= i < ops.len() implies !#[trigger] deleted_by(ops, i, t) by {
            if i < n {
                lemma_model_slots_grow(p, i);
                assert(ops.take(i) =~= p.take(i));
            } else {
                assert(ops[n] == ops.last());
            }
        }
    }
}

/// A page that starts empty and undergoes `ops` reads slot `t` as deleted
/// (what [`SlottedPage::is_deleted`] reports) exactly when one of `ops` is a
/// delete of slot `t` that took effect. So a slot past the last reads as not
/// deleted, and so does a slot that an insert returned until it is deleted.
pub proof fn lemma_deleted_exactly_when_deleted_before(b: Seq<u8>, id: u32, ops: Seq<PageOp>, t: int)
    requires
        b.len() == PAGE_SIZE,
        header_fault(b, id) is None,
        num_slots_of(b) == 0,
        free_start_of(b) == HEADER_SIZE,
        free_end_of(b) == PAGE_SIZE,
        0 <= t,
    ensures
        ({
            let n = page_run(b, ops);
            (t < num_slots_of(n) && slot_entry(n, t) == DELETED) <==> exists|i: int|
                0 <= i < ops.len() && #[trigger] deleted_by(ops, i, t)
        }),
{
    let n = page_run(b, ops);
    lemma_page_history(b, id, ops);
    if t < num_slots_of(n) {
        lemma_model_deleted(ops, t);
    } else {
        assert forall|i: int| 0 <= i < ops.len() implies !#[trigger] deleted_by(ops, i, t) by {
            lemma_model_slots_grow(ops, i);
        }
    }
}
} // verus!
