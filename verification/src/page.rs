//! The slotted page: a fixed-size byte buffer whose high end holds record
//! bytes and whose low end holds a header describing them.
//!
//! The header occupies the first `8 + 2*D + 4*N` bytes of the buffer, where
//! `D` is the number of currently freed slots and `N` the number of slot
//! metadata entries ever allocated.  Record bytes grow downward from the high
//! end of the buffer; the free cursor marks the last byte of the unallocated
//! gap between the two.  Slot ids are dense from 0 and are never renumbered:
//! a delete only marks a slot id freed, and the next insert reuses it.

use vstd::prelude::*;
use vstd::pervasive::VecAdditionalExecFns;

use crate::ids::{PageId, SlotId};
use crate::PAGE_SIZE;

verus! {

/// Per-slot metadata entry: the record's length in bytes and the offset of
/// its first byte within the page buffer.
#[derive(Clone, Copy, Debug)]
pub struct Metadata {
    pub record_size: u16,
    pub offset_value: u16,
}

/// Fixed header fields plus the ordered list of freed slot ids.
pub struct GeneralMetadataHeader {
    pub p_id: PageId,
    /// The free cursor: the last byte of the free gap, i.e. the byte just
    /// below the lowest record allocated so far.
    pub position_last_record: u16,
    /// Count of currently freed slots; equals the freed-slot list length.
    pub n_deletes: u16,
    /// Count of slot metadata entries ever allocated.
    pub n_records: u16,
    /// Freed slot ids in the order the deletes happened.
    pub free_spaces_from_deleted_record: Vec<u16>,
}

/// An in-memory slotted page of exactly `PAGE_SIZE` bytes once serialized.
pub struct Page {
    pub data: Vec<u8>,
    pub header: GeneralMetadataHeader,
    pub metadata: Vec<Metadata>,
}

/// Mathematical model of a page: what the contracts of every operation
/// speak about.
#[verifier::ext_equal]
pub ghost struct PageModel {
    pub page_id: u16,
    pub cursor: u16,
    pub free: Seq<u16>,
    pub slots: Seq<Metadata>,
    pub data: Seq<u8>,
}

impl View for Page {
    type V = PageModel;

    open spec fn view(&self) -> PageModel {
        PageModel {
            page_id: self.header.p_id,
            cursor: self.header.position_last_record,
            free: self.header.free_spaces_from_deleted_record@,
            slots: self.metadata@,
            data: self.data@,
        }
    }
}

/// Serialized size of the header: 8 fixed bytes, 2 per freed slot id,
/// 4 per slot metadata entry.
pub open spec fn spec_header_size(m: PageModel) -> int {
    8 + 2 * m.free.len() as int + 4 * m.slots.len() as int
}

/// Size of the free gap between the end of the header and the free cursor.
pub open spec fn spec_free_space(m: PageModel) -> int {
    m.cursor - spec_header_size(m) + 1
}

/// Two footprints do not share a byte.
pub open spec fn spec_disjoint(a: Metadata, b: Metadata) -> bool {
    a.offset_value + a.record_size <= b.offset_value
        || b.offset_value + b.record_size <= a.offset_value
}

/// Well-formedness of a page.
///
/// The header fits in the buffer and leaves the free cursor at or above its
/// last byte; every freed id names an allocated slot and appears once; and
/// every footprint lies strictly above the free cursor, ends within the
/// buffer, and overlaps no other footprint.
pub open spec fn spec_wf(m: PageModel) -> bool {
    &&& m.data.len() == PAGE_SIZE
    &&& spec_header_size(m) <= PAGE_SIZE
    &&& m.cursor < PAGE_SIZE
    &&& m.cursor + 1 >= spec_header_size(m)
    &&& forall|i: int| 0 <= i < m.free.len() ==> (#[trigger] m.free[i]) < m.slots.len()
    &&& forall|i: int, j: int| 0 <= i < j < m.free.len() ==> m.free[i] != m.free[j]
    &&& forall|k: int| 0 <= k < m.slots.len() ==> (#[trigger] m.slots[k]).offset_value > m.cursor
    &&& forall|k: int|
        0 <= k < m.slots.len() ==> (#[trigger] m.slots[k]).offset_value + m.slots[k].record_size
            <= PAGE_SIZE
    &&& forall|j: int, k: int|
        0 <= j < k < m.slots.len() ==> spec_disjoint(m.slots[j], m.slots[k])
}

/// A slot holds a live value: it is allocated and not currently freed.
pub open spec fn spec_live(m: PageModel, s: SlotId) -> bool {
    s < m.slots.len() && !m.free.contains(s)
}

/// The bytes of slot `s`'s record.
pub open spec fn spec_value(m: PageModel, s: SlotId) -> Seq<u8> {
    m.data.subrange(
        m.slots[s as int].offset_value as int,
        m.slots[s as int].offset_value + m.slots[s as int].record_size,
    )
}

/// What a read of slot `s` observes.
pub open spec fn spec_get(m: PageModel, s: SlotId) -> Option<Seq<u8>> {
    if spec_live(m, s) {
        Some(spec_value(m, s))
    } else {
        None
    }
}

/// The model of a freshly created page: free cursor at the last byte, no
/// slots, all bytes zero.
pub open spec fn spec_empty_page(page_id: PageId) -> PageModel {
    PageModel {
        page_id,
        cursor: (PAGE_SIZE - 1) as u16,
        free: Seq::empty(),
        slots: Seq::empty(),
        data: Seq::new(PAGE_SIZE as nat, |i: int| 0u8),
    }
}

impl Page {
    /// Header counts match the lists they describe, and the model is
    /// well formed.
    pub open spec fn wf(&self) -> bool {
        &&& self.header.n_records == self.metadata@.len()
        &&& self.header.n_deletes == self.header.free_spaces_from_deleted_record@.len()
        &&& spec_wf(self@)
    }

    /// Create an empty page: free cursor at the last byte, no slots.
    pub fn new(page_id: PageId) -> (p: Page)
        ensures
            p.wf(),
            p@ == spec_empty_page(page_id),
    {
        let mut data: Vec<u8> = Vec::new();
        while data.len() < PAGE_SIZE
            invariant
                data@.len() <= PAGE_SIZE,
                forall|i: int| 0 <= i < data@.len() ==> data@[i] == 0u8,
            decreases PAGE_SIZE - data.len(),
        {
            data.push(0u8);
        }
        let head = GeneralMetadataHeader {
            p_id: page_id,
            position_last_record: (PAGE_SIZE - 1) as u16,
            n_deletes: 0,
            n_records: 0,
            free_spaces_from_deleted_record: Vec::new(),
        };
        let p = Page { data, header: head, metadata: Vec::new() };
        proof {
            assert(p@ =~= spec_empty_page(page_id));
        }
        p
    }

    /// Return the page id.
    pub fn get_page_id(&self) -> (r: PageId)
        ensures
            r == self@.page_id,
    {
        self.header.p_id
    }

    /// Serialized size of the header in bytes.
    pub fn get_header_size(&self) -> (r: usize)
        requires
            self.wf(),
        ensures
            r == spec_header_size(self@),
    {
        8 + 2 * self.header.free_spaces_from_deleted_record.len() + 4 * self.metadata.len()
    }

    /// Size of the largest block of free space: the gap between the end of
    /// the header and the free cursor.
    pub fn get_largest_free_contiguous_space(&self) -> (r: usize)
        requires
            self.wf(),
        ensures
            r == spec_free_space(self@),
    {
        let hs = self.get_header_size();
        self.header.position_last_record as usize + 1 - hs
    }
}

/// Whether a freed-slot list holds the id `s`.
pub(crate) fn free_list_contains(free: &Vec<u16>, s: u16) -> (r: bool)
    ensures
        r == free@.contains(s),
{
    let mut i: usize = 0;
    while i < free.len()
        invariant
            i <= free@.len(),
            forall|j: int| 0 <= j < i ==> free@[j] != s,
        decreases free@.len() - i,
    {
        if free[i] == s {
            return true;
        }
        i = i + 1;
    }
    false
}

impl Page {
    /// Return a copy of the live bytes of `slot_id`, or `None` if the slot
    /// is out of range or currently freed.
    pub fn get_value(&self, slot_id: SlotId) -> (r: Option<Vec<u8>>)
        requires
            self.wf(),
        ensures
            match r {
                Some(v) => spec_get(self@, slot_id) == Some(v@),
                None => spec_get(self@, slot_id) is None,
            },
    {
        if slot_id as usize >= self.metadata.len() {
            return None;
        }
        if free_list_contains(&self.header.free_spaces_from_deleted_record, slot_id) {
            return None;
        }
        let md = self.metadata[slot_id as usize];
        let start = md.offset_value as usize;
        let size = md.record_size as usize;
        assert(self@.slots[slot_id as int].offset_value + self@.slots[slot_id as int].record_size
            <= PAGE_SIZE);
        let mut out: Vec<u8> = Vec::new();
        let mut k: usize = 0;
        while k < size
            invariant
                k <= size,
                self@.data.len() == PAGE_SIZE,
                start + size <= PAGE_SIZE,
                out@.len() == k,
                forall|j: int| 0 <= j < k ==> out@[j] == self@.data[start + j],
            decreases size - k,
        {
            out.push(self.data[start + k]);
            k = k + 1;
        }
        proof {
            assert(out@ =~= spec_value(self@, slot_id));
        }
        Some(out)
    }
}

/// State of a page after `delete_value(s)`: unchanged unless `s` is a live
/// slot and two bytes of free space remain to record the freed id.
pub open spec fn spec_delete(m: PageModel, s: SlotId) -> PageModel {
    if s < m.slots.len() && !m.free.contains(s) && spec_free_space(m) >= 2 {
        PageModel { free: m.free.push(s), ..m }
    } else {
        m
    }
}

/// Whether `delete_value(s)` reports success: `s` must be in the allocated
/// range, and if it is still live, the freed-slot list must have room to
/// grow by one entry.
pub open spec fn spec_delete_ok(m: PageModel, s: SlotId) -> bool {
    s < m.slots.len() && (m.free.contains(s) || spec_free_space(m) >= 2)
}

impl Page {
    /// Mark `slot_id` freed without moving or erasing its bytes.  Freeing an
    /// already freed slot succeeds and changes nothing.  Fails if the slot is
    /// out of the allocated range, or if recording the freed id would
    /// overflow the header into the data region.
    pub fn delete_value(&mut self, slot_id: SlotId) -> (r: Option<()>)
        requires
            old(self).wf(),
        ensures
            final(self).wf(),
            final(self)@ == spec_delete(old(self)@, slot_id),
            r is Some <==> spec_delete_ok(old(self)@, slot_id),
    {
        if slot_id as usize >= self.metadata.len() {
            return None;
        }
        if free_list_contains(&self.header.free_spaces_from_deleted_record, slot_id) {
            return Some(());
        }
        if self.get_largest_free_contiguous_space() < 2 {
            return None;
        }
        self.header.free_spaces_from_deleted_record.push(slot_id);
        self.header.n_deletes = self.header.n_deletes + 1;
        proof {
            let m0 = old(self)@;
            let m1 = self@;
            assert forall|i: int| 0 <= i < m1.free.len() implies (#[trigger] m1.free[i])
                < m1.slots.len() by {
                if i < m0.free.len() {
                    assert(m1.free[i] == m0.free[i]);
                }
            }
        }
        Some(())
    }
}

/// Slot `s` is allocated and its footprint can hold `len` bytes in place.
pub open spec fn spec_fits_slot(m: PageModel, s: u16, len: int) -> bool {
    s < m.slots.len() && m.slots[s as int].record_size >= len
}

/// First index at or after `i` in the freed-slot list whose footprint can
/// hold `len` bytes in place; the scan follows the order deletes happened.
pub open spec fn spec_fit_from(m: PageModel, len: int, i: int) -> Option<int>
    decreases m.free.len() - i
        when 0 <= i <= m.free.len()
{
    if i >= m.free.len() {
        None
    } else if spec_fits_slot(m, m.free[i], len) {
        Some(i)
    } else {
        spec_fit_from(m, len, i + 1)
    }
}

/// First index in the freed-slot list whose footprint can hold `len` bytes.
pub open spec fn spec_fit_index(m: PageModel, len: int) -> Option<int> {
    spec_fit_from(m, len, 0)
}

/// Index of the smallest element of a nonempty sequence (the first one,
/// if a value repeats).
pub open spec fn spec_min_index(s: Seq<u16>) -> int
    decreases s.len(),
{
    if s.len() <= 1 {
        0
    } else {
        let r = 1 + spec_min_index(s.drop_first());
        if s[0] <= s[r] {
            0
        } else {
            r
        }
    }
}

pub proof fn lemma_min_index(s: Seq<u16>)
    requires
        s.len() > 0,
    ensures
        0 <= spec_min_index(s) < s.len(),
        forall|j: int| 0 <= j < s.len() ==> s[spec_min_index(s)] <= #[trigger] s[j],
    decreases s.len(),
{
    if s.len() > 1 {
        lemma_min_index(s.drop_first());
        let r = 1 + spec_min_index(s.drop_first());
        assert forall|j: int| 0 <= j < s.len() implies s[spec_min_index(s)] <= #[trigger] s[j] by {
            if j >= 1 {
                assert(s.drop_first()[j - 1] == s[j]);
                assert(s.drop_first()[spec_min_index(s.drop_first())] <= s.drop_first()[j - 1]);
            }
        }
    }
}

/// Facts about removing index `i` from a duplicate-free sequence: length,
/// membership of the removed value, membership of every other value, and
/// that the remainder is still duplicate free.
pub proof fn lemma_remove_distinct(s: Seq<u16>, i: int)
    requires
        0 <= i < s.len(),
        forall|p: int, q: int| 0 <= p < q < s.len() ==> s[p] != s[q],
    ensures
        s.remove(i).len() == s.len() - 1,
        !s.remove(i).contains(s[i]),
        forall|x: u16| x != s[i] ==> (s.remove(i).contains(x) <==> s.contains(x)),
        forall|p: int, q: int|
            0 <= p < q < s.remove(i).len() ==> s.remove(i)[p] != s.remove(i)[q],
        forall|p: int|
            0 <= p < s.remove(i).len() ==> #[trigger] s.remove(i)[p] == (if p < i {
                s[p]
            } else {
                s[p + 1]
            }),
{
    s.remove_ensures(i);
    let t = s.remove(i);
    assert forall|p: int| 0 <= p < t.len() implies #[trigger] t[p] == (if p < i {
        s[p]
    } else {
        s[p + 1]
    }) by {}
    assert(!t.contains(s[i])) by {
        if t.contains(s[i]) {
            let p = choose|p: int| 0 <= p < t.len() && t[p] == s[i];
            if p < i {
                assert(s[p] == s[i]);
            } else {
                assert(s[p + 1] == s[i]);
            }
        }
    }
    assert forall|x: u16| x != s[i] implies (t.contains(x) <==> s.contains(x)) by {
        if t.contains(x) {
            let p = choose|p: int| 0 <= p < t.len() && t[p] == x;
            if p < i {
                assert(s[p] == x);
            } else {
                assert(s[p + 1] == x);
            }
        }
        if s.contains(x) {
            let p = choose|p: int| 0 <= p < s.len() && s[p] == x;
            if p < i {
                assert(t[p] == x);
            } else {
                assert(p != i);
                assert(t[p - 1] == x);
            }
        }
    }
}

/// State and result of the freed-slot reuse paths of an insert.
///
/// If some freed slot's footprint can hold the bytes, the first such slot in
/// delete order takes them in place: its metadata keeps the old offset and
/// records the new length, and leftover footprint bytes become unaddressable
/// padding.  Otherwise, if the free gap can hold the bytes, the lowest freed
/// slot id keeps its id but points at a fresh allocation taken from the gap.
/// Otherwise nothing fits and the page is unchanged.
pub open spec fn spec_overwrite(m: PageModel, bytes: Seq<u8>) -> Option<(PageModel, SlotId)> {
    let len = bytes.len() as int;
    match spec_fit_index(m, len) {
        Some(i) => {
            let s = m.free[i];
            let off = m.slots[s as int].offset_value;
            Some(
                (
                    PageModel {
                        free: m.free.remove(i),
                        slots: m.slots.update(
                            s as int,
                            Metadata { record_size: len as u16, offset_value: off },
                        ),
                        data: m.data.update_subrange_with(off as int, bytes),
                        ..m
                    },
                    s,
                ),
            )
        },
        None => {
            if m.free.len() > 0 && len <= spec_free_space(m) {
                let j = spec_min_index(m.free);
                let s = m.free[j];
                let start = m.cursor - len + 1;
                Some(
                    (
                        PageModel {
                            cursor: (m.cursor - len) as u16,
                            free: m.free.remove(j),
                            slots: m.slots.update(
                                s as int,
                                Metadata { record_size: len as u16, offset_value: start as u16 },
                            ),
                            data: m.data.update_subrange_with(start, bytes),
                            ..m
                        },
                        s,
                    ),
                )
            } else {
                None
            }
        },
    }
}

/// State and result of an insert.  The freed-slot paths are tried first;
/// with no freed slot at all, a brand-new slot is appended when the free gap
/// can hold the bytes plus the four bytes of its metadata entry.
pub open spec fn spec_add(m: PageModel, bytes: Seq<u8>) -> Option<(PageModel, SlotId)> {
    match spec_overwrite(m, bytes) {
        Some(r) => Some(r),
        None => {
            let len = bytes.len() as int;
            if m.free.len() == 0 && len + 4 <= spec_free_space(m) {
                let start = m.cursor - len + 1;
                Some(
                    (
                        PageModel {
                            cursor: (m.cursor - len) as u16,
                            slots: m.slots.push(
                                Metadata { record_size: len as u16, offset_value: start as u16 },
                            ),
                            data: m.data.update_subrange_with(start, bytes),
                            ..m
                        },
                        m.slots.len() as u16,
                    ),
                )
            } else {
                None
            }
        },
    }
}

/// The capacity boundary: an insert of `len` bytes succeeds exactly when a
/// freed footprint of at least `len` bytes exists, or a freed slot id exists
/// and `len` fits the free gap, or no freed slot exists and `len` plus the
/// four metadata bytes fit the free gap.
pub open spec fn spec_can_add(m: PageModel, len: int) -> bool {
    ||| spec_fit_index(m, len) is Some
    ||| m.free.len() > 0 && len <= spec_free_space(m)
    ||| m.free.len() == 0 && len + 4 <= spec_free_space(m)
}

pub proof fn lemma_add_iff_can_add(m: PageModel, bytes: Seq<u8>)
    ensures
        spec_add(m, bytes) is Some <==> spec_can_add(m, bytes.len() as int),
{
}

/// Characterize the freed-slot scan: the index returned is in range, fits,
/// and is the first that fits; `None` means nothing fits.
pub proof fn lemma_fit_from(m: PageModel, len: int, i: int)
    requires
        0 <= i <= m.free.len(),
    ensures
        match spec_fit_from(m, len, i) {
            Some(r) => {
                &&& i <= r < m.free.len()
                &&& spec_fits_slot(m, m.free[r], len)
                &&& forall|j: int| i <= j < r ==> !spec_fits_slot(m, m.free[j], len)
            },
            None => forall|j: int| i <= j < m.free.len() ==> !spec_fits_slot(m, m.free[j], len),
        },
    decreases m.free.len() - i,
{
    if i < m.free.len() && !spec_fits_slot(m, m.free[i], len) {
        lemma_fit_from(m, len, i + 1);
    }
}

/// An insert preserves well-formedness; the slot it returns is live and
/// holds exactly the inserted bytes; and every other slot reads as before.
pub proof fn lemma_add_props(m: PageModel, bytes: Seq<u8>)
    requires
        spec_wf(m),
    ensures
        match spec_add(m, bytes) {
            Some(r2) => {
                &&& spec_wf(r2.0)
                &&& r2.0.page_id == m.page_id
                &&& r2.1 as int <= m.slots.len()
                &&& (r2.1 as int == m.slots.len() <==> m.free.len() == 0)
                &&& r2.0.slots.len() as int == if m.free.len() == 0 {
                    m.slots.len() as int + 1
                } else {
                    m.slots.len() as int
                }
                &&& spec_live(r2.0, r2.1)
                &&& !spec_live(m, r2.1)
                &&& spec_value(r2.0, r2.1) == bytes
                &&& forall|t: SlotId| t != r2.1 ==> spec_get(r2.0, t) == spec_get(m, t)
            },
            None => true,
        },
{
    let len = bytes.len() as int;
    match spec_fit_index(m, len) {
        Some(i) => {
            lemma_fit_from(m, len, 0);
            let s = m.free[i];
            let old_md = m.slots[s as int];
            lemma_remove_distinct(m.free, i);
            let m2 = spec_add(m, bytes)->Some_0.0;
            assert(m2.data.len() == m.data.len());
            assert(spec_wf(m2)) by {
                assert forall|p: int| 0 <= p < m2.free.len() implies (#[trigger] m2.free[p])
                    < m2.slots.len() by {
                    assert(m2.free[p] == if p < i {
                        m.free[p]
                    } else {
                        m.free[p + 1]
                    });
                }
                assert forall|j: int, k: int| 0 <= j < k < m2.slots.len() implies spec_disjoint(
                    m2.slots[j],
                    m2.slots[k],
                ) by {
                    assert(spec_disjoint(m.slots[j], m.slots[k]));
                }
            }
            assert(spec_value(m2, s) =~= bytes);
            assert forall|t: SlotId| t != s implies spec_get(m2, t) == spec_get(m, t) by {
                if t < m.slots.len() {
                    if (t as int) < (s as int) {
                        assert(spec_disjoint(m.slots[t as int], m.slots[s as int]));
                    } else {
                        assert(spec_disjoint(m.slots[s as int], m.slots[t as int]));
                    }
                }
                lemma_frame_in_range(m, m2, t, s, old_md.offset_value as int, len);
            }
        },
        None => {
            if m.free.len() > 0 && len <= spec_free_space(m) {
                lemma_min_index(m.free);
                let j = spec_min_index(m.free);
                let s = m.free[j];
                lemma_remove_distinct(m.free, j);
                let m2 = spec_add(m, bytes)->Some_0.0;
                let start = m.cursor - len + 1;
                assert(m2.data.len() == m.data.len());
                assert(spec_wf(m2)) by {
                    assert forall|p: int| 0 <= p < m2.free.len() implies (#[trigger] m2.free[p])
                        < m2.slots.len() by {
                        assert(m2.free[p] == if p < j {
                            m.free[p]
                        } else {
                            m.free[p + 1]
                        });
                    }
                    assert forall|q: int, k: int| 0 <= q < k < m2.slots.len() implies spec_disjoint(
                        m2.slots[q],
                        m2.slots[k],
                    ) by {
                        assert(spec_disjoint(m.slots[q], m.slots[k]));
                    }
                }
                assert(spec_value(m2, s) =~= bytes);
                assert forall|t: SlotId| t != s implies spec_get(m2, t) == spec_get(m, t) by {
                    if t < m.slots.len() {
                        assert(m.slots[t as int].offset_value > m.cursor);
                    }
                    lemma_frame_in_range(m, m2, t, s, start, len);
                }
            } else if m.free.len() == 0 && len + 4 <= spec_free_space(m) {
                let m2 = spec_add(m, bytes)->Some_0.0;
                let s = m.slots.len() as u16;
                let start = m.cursor - len + 1;
                assert(m2.data.len() == m.data.len());
                assert(spec_wf(m2)) by {
                    assert forall|q: int, k: int| 0 <= q < k < m2.slots.len() implies spec_disjoint(
                        m2.slots[q],
                        m2.slots[k],
                    ) by {
                        if k < m.slots.len() {
                            assert(spec_disjoint(m.slots[q], m.slots[k]));
                        }
                    }
                }
                assert(spec_value(m2, s) =~= bytes);
                assert forall|t: SlotId| t != s implies spec_get(m2, t) == spec_get(m, t) by {
                    if t < m.slots.len() {
                        assert(m.slots[t as int].offset_value > m.cursor);
                    }
                    lemma_frame_in_range(m, m2, t, s, start, len);
                }
            }
        },
    }
}

/// The reuse paths alone preserve well-formedness and read back what they
/// wrote, leaving every other slot unchanged.
pub proof fn lemma_overwrite_props(m: PageModel, bytes: Seq<u8>)
    requires
        spec_wf(m),
    ensures
        match spec_overwrite(m, bytes) {
            Some(r2) => {
                &&& spec_wf(r2.0)
                &&& r2.0.page_id == m.page_id
                &&& r2.1 < m.slots.len() && m.free.contains(r2.1)
                &&& r2.0.slots.len() == m.slots.len()
                &&& spec_live(r2.0, r2.1)
                &&& spec_value(r2.0, r2.1) == bytes
                &&& forall|t: SlotId| t != r2.1 ==> spec_get(r2.0, t) == spec_get(m, t)
            },
            None => true,
        },
{
    if spec_overwrite(m, bytes) is Some {
        assert(spec_add(m, bytes) == spec_overwrite(m, bytes));
        lemma_add_props(m, bytes);
        let len = bytes.len() as int;
        match spec_fit_index(m, len) {
            Some(i) => {
                lemma_fit_from(m, len, 0);
            },
            None => {
                lemma_min_index(m.free);
            },
        }
    }
}

/// Frame lemma: when `m2` differs from a well-formed `m` only by slot `s`'s
/// metadata, a byte write inside slot `s`'s region, and the freed-slot list
/// losing one occurrence of `s`, every other slot reads as before.
proof fn lemma_frame_in_range(m: PageModel, m2: PageModel, t: SlotId, s: SlotId, start: int, len: int)
    requires
        spec_wf(m),
        t != s,
        m2.data.len() == m.data.len(),
        t as int >= m.slots.len() ==> t as int >= m2.slots.len(),
        t < m.slots.len() ==> {
            &&& t < m2.slots.len()
            &&& m2.slots[t as int] == m.slots[t as int]
            &&& (m2.free.contains(t) <==> m.free.contains(t))
            &&& spec_disjoint_range(m.slots[t as int], start, len)
        },
        forall|q: int|
            0 <= q < m.data.len() && !(start <= q < start + len) ==> m2.data[q] == m.data[q],
    ensures
        spec_get(m2, t) == spec_get(m, t),
{
    if t < m.slots.len() {
        if spec_live(m, t) {
            assert(m.slots[t as int].offset_value + m.slots[t as int].record_size <= m.data.len());
            assert(spec_value(m2, t) =~= spec_value(m, t));
        }
    }
}

/// Header size invariant: the serialized header of a well-formed page is
/// exactly 8 bytes plus 4 per slot metadata entry plus 2 per freed slot,
/// and never exceeds `PAGE_SIZE`.
pub proof fn lemma_header_size_invariant(m: PageModel)
    requires
        spec_wf(m),
    ensures
        spec_header_size(m) == 8 + 4 * m.slots.len() + 2 * m.free.len(),
        spec_header_size(m) <= PAGE_SIZE,
{
}

/// The largest free contiguous space is the free cursor minus the header
/// size plus one, and is never negative.
pub proof fn lemma_free_space_formula(m: PageModel)
    requires
        spec_wf(m),
    ensures
        spec_free_space(m) == m.cursor - spec_header_size(m) + 1,
        spec_free_space(m) >= 0,
{
}

/// Deletion and reuse: after a successful delete of slot `s` on a page
/// with no other freed slot, the slot reads as absent, and the next insert
/// whose bytes fit `s`'s old footprint returns the same slot id `s`, which
/// then reads the new bytes.
pub proof fn lemma_delete_then_reuse(m: PageModel, s: SlotId, bytes: Seq<u8>)
    requires
        spec_wf(m),
        spec_live(m, s),
        m.free.len() == 0,
        spec_free_space(m) >= 2,
        bytes.len() <= m.slots[s as int].record_size,
    ensures
        spec_delete_ok(m, s),
        spec_get(spec_delete(m, s), s) is None,
        spec_add(spec_delete(m, s), bytes) is Some,
        spec_add(spec_delete(m, s), bytes)->Some_0.1 == s,
        spec_get(spec_add(spec_delete(m, s), bytes)->Some_0.0, s) == Some(bytes),
{
    let md = spec_delete(m, s);
    lemma_delete_wf(m, s);
    assert(md.free =~= seq![s]);
    assert(spec_fits_slot(md, s, bytes.len() as int));
    assert(spec_fit_from(md, bytes.len() as int, 0) == Some(0int));
    lemma_add_props(md, bytes);
}

/// A delete preserves well-formedness; after a delete that reports
/// success, the slot reads as absent, and every other slot reads as
/// before.
pub proof fn lemma_delete_wf(m: PageModel, s: SlotId)
    requires
        spec_wf(m),
    ensures
        spec_wf(spec_delete(m, s)),
        spec_delete_ok(m, s) ==> spec_get(spec_delete(m, s), s) is None,
        forall|t: SlotId| t != s ==> spec_get(spec_delete(m, s), t) == spec_get(m, t),
{
    let m2 = spec_delete(m, s);
    if s < m.slots.len() && !m.free.contains(s) && spec_free_space(m) >= 2 {
        assert forall|i: int| 0 <= i < m2.free.len() implies (#[trigger] m2.free[i])
            < m2.slots.len() by {
            if i < m.free.len() {
                assert(m2.free[i] == m.free[i]);
            }
        }
        assert(m2.free.contains(s)) by {
            assert(m2.free[m.free.len() as int] == s);
        }
        assert forall|t: SlotId| t != s implies spec_get(m2, t) == spec_get(m, t) by {
            assert(m2.free.contains(t) <==> m.free.contains(t)) by {
                if m2.free.contains(t) {
                    let i = choose|i: int| 0 <= i < m2.free.len() && m2.free[i] == t;
                    assert(m.free[i] == t);
                }
                if m.free.contains(t) {
                    let i = choose|i: int| 0 <= i < m.free.len() && m.free[i] == t;
                    assert(m2.free[i] == t);
                }
            }
        }
    }
}

/// The byte range `[start, start + len)` does not touch footprint `a`.
pub open spec fn spec_disjoint_range(a: Metadata, start: int, len: int) -> bool {
    a.offset_value + a.record_size <= start || start + len <= a.offset_value
}

/// Copy `bytes` into `data` starting at `start`.
pub(crate) fn write_bytes(data: &mut Vec<u8>, start: usize, bytes: &[u8])
    requires
        start + bytes@.len() <= old(data)@.len(),
    ensures
        final(data)@ == old(data)@.update_subrange_with(start as int, bytes@),
{
    let dlen: usize = data.len();
    let mut k: usize = 0;
    while k < bytes.len()
        invariant
            k <= bytes@.len(),
            data@.len() == dlen,
            start + bytes@.len() <= data@.len(),
            data@.len() == old(data)@.len(),
            forall|q: int|
                0 <= q < data@.len() && !(start <= q < start + k) ==> data@[q] == old(data)@[q],
            forall|q: int| start <= q < start + k ==> data@[q] == bytes@[q - start],
        decreases bytes@.len() - k,
    {
        data.set(start + k, bytes[k]);
        k = k + 1;
    }
    proof {
        assert(data@ =~= old(data)@.update_subrange_with(start as int, bytes@));
    }
}

impl Page {
    /// Insert `bytes` by reusing a freed slot id, if one exists: in place in
    /// the first freed footprint that can hold them, otherwise into a fresh
    /// allocation from the free gap under the lowest freed slot id.  Returns
    /// `None`, leaving the page unchanged, if there is no freed slot id or
    /// nothing fits.
    #[verifier::loop_isolation(false)]
    pub fn overwrite(&mut self, bytes: &[u8]) -> (r: Option<SlotId>)
        requires
            old(self).wf(),
        ensures
            final(self).wf(),
            match spec_overwrite(old(self)@, bytes@) {
                Some(r2) => r == Some(r2.1) && final(self)@ == r2.0,
                None => r is None && *final(self) == *old(self),
            },
    {
        let ghost m0 = self@;
        proof {
            lemma_overwrite_props(m0, bytes@);
        }
        let len = bytes.len();
        let nfree = self.header.free_spaces_from_deleted_record.len();
        if nfree == 0 {
            return None;
        }
        let mut i: usize = 0;
        while i < nfree
            invariant
                *self == *old(self),
                self.wf(),
                m0 == self@,
                len == bytes@.len(),
                nfree == m0.free.len(),
                i <= nfree,
                spec_fit_from(m0, len as int, 0) == spec_fit_from(m0, len as int, i as int),
            decreases nfree - i,
        {
            let s = self.header.free_spaces_from_deleted_record[i];
            proof {
                assert(m0.free[i as int] < m0.slots.len());
            }
            let md = self.metadata[s as usize];
            if len <= md.record_size as usize {
                proof {
                    assert(spec_fits_slot(m0, s, len as int));
                    assert(spec_fit_index(m0, len as int) == Some(i as int));
                    assert(m0.slots[s as int].offset_value + m0.slots[s as int].record_size
                        <= PAGE_SIZE);
                }
                let start = md.offset_value as usize;
                write_bytes(&mut self.data, start, bytes);
                self.metadata.set(
                    s as usize,
                    Metadata { record_size: len as u16, offset_value: md.offset_value },
                );
                self.header.free_spaces_from_deleted_record.remove(i);
                self.header.n_deletes = self.header.n_deletes - 1;
                proof {
                    match spec_overwrite(m0, bytes@) {
                        Some(r2) => {
                            assert(self@ =~= r2.0);
                        },
                        None => {
                            assert(false);
                        },
                    }
                }
                return Some(s);
            }
            i = i + 1;
            proof {
                assert(spec_fit_from(m0, len as int, i - 1) == spec_fit_from(m0, len as int, i as int));
            }
        }
        // No freed footprint holds the bytes; try a fresh allocation under
        // the lowest freed slot id.
        proof {
            assert(spec_fit_index(m0, len as int) is None);
        }
        let fspace = self.get_largest_free_contiguous_space();
        if len > fspace {
            return None;
        }
        let mut j: usize = 0;
        let mut k: usize = 1;
        while k < nfree
            invariant
                *self == *old(self),
                self.wf(),
                m0 == self@,
                nfree == m0.free.len(),
                0 < nfree,
                j < k,
                k <= nfree,
                forall|q: int| 0 <= q < k ==> m0.free[j as int] <= #[trigger] m0.free[q],
            decreases nfree - k,
        {
            if self.header.free_spaces_from_deleted_record[k]
                < self.header.free_spaces_from_deleted_record[j] {
                j = k;
            }
            k = k + 1;
        }
        proof {
            lemma_min_index(m0.free);
            let mi = spec_min_index(m0.free);
            if j as int != mi {
                assert(m0.free[j as int] <= m0.free[mi]);
                assert(m0.free[mi] <= m0.free[j as int]);
                assert(false);
            }
        }
        let s = self.header.free_spaces_from_deleted_record[j];
        proof {
            assert(m0.free[j as int] < m0.slots.len());
        }
        let end = self.header.position_last_record as usize;
        let start = end + 1 - len;
        write_bytes(&mut self.data, start, bytes);
        self.metadata.set(
            s as usize,
            Metadata { record_size: len as u16, offset_value: start as u16 },
        );
        self.header.free_spaces_from_deleted_record.remove(j);
        self.header.n_deletes = self.header.n_deletes - 1;
        self.header.position_last_record = (end - len) as u16;
        proof {
            match spec_overwrite(m0, bytes@) {
                Some(r2) => {
                    assert(self@ =~= r2.0);
                },
                None => {
                    assert(false);
                },
            }
        }
        Some(s)
    }

    /// Insert `bytes` into the page if there is space available, returning
    /// the slot id they now live under, or `None`, leaving the page
    /// unchanged, if nothing fits.  Freed slot ids are reused first; only a
    /// page with no freed slot allocates a brand-new slot, which costs four
    /// header bytes besides the record itself.
    pub fn add_value(&mut self, bytes: &[u8]) -> (r: Option<SlotId>)
        requires
            old(self).wf(),
        ensures
            final(self).wf(),
            match spec_add(old(self)@, bytes@) {
                Some(r2) => r == Some(r2.1) && final(self)@ == r2.0,
                None => r is None && *final(self) == *old(self),
            },
            r is Some <==> spec_can_add(old(self)@, bytes@.len() as int),
    {
        let ghost m0 = self@;
        proof {
            lemma_add_iff_can_add(m0, bytes@);
            lemma_add_props(m0, bytes@);
        }
        let r = self.overwrite(bytes);
        match r {
            Some(s) => Some(s),
            None => {
                let len = bytes.len();
                if self.header.free_spaces_from_deleted_record.len() > 0 {
                    return None;
                }
                let fspace = self.get_largest_free_contiguous_space();
                if fspace < 4 || len > fspace - 4 {
                    return None;
                }
                let end = self.header.position_last_record as usize;
                let start = end + 1 - len;
                write_bytes(&mut self.data, start, bytes);
                self.metadata.push(
                    Metadata { record_size: len as u16, offset_value: start as u16 },
                );
                self.header.n_records = self.header.n_records + 1;
                self.header.position_last_record = (end - len) as u16;
                proof {
                    match spec_add(m0, bytes@) {
                        Some(r2) => {
                            assert(self@ =~= r2.0);
                        },
                        None => {
                            assert(false);
                        },
                    }
                }
                Some(self.metadata.len() as u16 - 1)
            },
        }
    }
}

/// The live values of slots `i` onward, in ascending slot-id order, freed
/// slots skipped.
pub open spec fn spec_values_from(m: PageModel, i: int) -> Seq<Seq<u8>>
    decreases m.slots.len() - i
        when 0 <= i
{
    if i >= m.slots.len() {
        Seq::empty()
    } else if m.free.contains(i as u16) {
        spec_values_from(m, i + 1)
    } else {
        seq![spec_value(m, i as u16)] + spec_values_from(m, i + 1)
    }
}

/// Every live value of the page, in ascending slot-id order.
pub open spec fn spec_page_values(m: PageModel) -> Seq<Seq<u8>> {
    spec_values_from(m, 0)
}

/// Two pages whose slots read the same have the same value sequence.
pub proof fn lemma_values_from_congruence(m1: PageModel, m2: PageModel, i: int)
    requires
        0 <= i,
        m1.slots.len() == m2.slots.len(),
        forall|s: u16| spec_get(m1, s) == spec_get(m2, s),
    ensures
        spec_values_from(m1, i) == spec_values_from(m2, i),
    decreases m1.slots.len() - i,
{
    if i < m1.slots.len() {
        lemma_values_from_congruence(m1, m2, i + 1);
        assert(spec_get(m1, i as u16) == spec_get(m2, i as u16));
        if !m1.free.contains(i as u16) {
            assert(spec_values_from(m1, i) == seq![spec_value(m1, i as u16)]
                + spec_values_from(m1, i + 1));
        }
    }
}

/// The (consuming) iterator over the live values of a page, in ascending
/// slot-id order.
pub struct PageIter {
    page: Page,
    page_index: usize,
}

impl PageIter {
    /// The underlying page.
    pub closed spec fn spec_page(&self) -> Page {
        self.page
    }

    /// The next slot id the iterator will look at.
    pub closed spec fn spec_index(&self) -> int {
        self.page_index as int
    }

    /// The values the iterator has yet to yield.
    pub open spec fn remaining(&self) -> Seq<Seq<u8>> {
        spec_values_from(self.spec_page()@, self.spec_index())
    }

    /// Yield a copy of the next live value, or `None` when no live slot is
    /// left.
    #[verifier::loop_isolation(false)]
    pub fn next(&mut self) -> (r: Option<Vec<u8>>)
        requires
            old(self).spec_page().wf(),
            old(self).spec_index() >= 0,
        ensures
            final(self).spec_page() == old(self).spec_page(),
            final(self).spec_index() >= 0,
            match r {
                Some(v) => old(self).remaining() == seq![v@] + final(self).remaining(),
                None => old(self).remaining() == Seq::<Seq<u8>>::empty() && final(self).remaining()
                    == Seq::<Seq<u8>>::empty(),
            },
    {
        let ghost m = self.page@;
        let n = self.page.metadata.len();
        let mut idx = self.page_index;
        if idx >= n {
            return None;
        }
        while idx < n && free_list_contains(&self.page.header.free_spaces_from_deleted_record, idx as u16)
            invariant
                old(self).spec_index() <= idx,
                spec_values_from(m, old(self).spec_index()) == spec_values_from(m, idx as int),
            decreases n - idx,
        {
            idx = idx + 1;
        }
        if idx >= n {
            self.page_index = idx;
            return None;
        }
        self.page_index = idx + 1;
        match self.page.get_value(idx as u16) {
            Some(v) => {
                proof {
                    assert(spec_values_from(m, idx as int) == seq![spec_value(m, idx as u16)]
                        + spec_values_from(m, idx + 1));
                }
                Some(v)
            },
            None => {
                proof {
                    assert(spec_live(m, idx as u16));
                    assert(false);
                }
                None
            },
        }
    }
}

impl Page {
    /// Turn the page into an iterator over its live values in ascending
    /// slot-id order.
    pub fn into_iter(self) -> (it: PageIter)
        ensures
            it.spec_page() == self,
            it.spec_index() == 0,
            it.remaining() == spec_page_values(self@),
    {
        PageIter { page: self, page_index: 0 }
    }
}

} // verus!
