//! Byte layout of a page and its round trip.
//!
//! A serialized page is exactly `PAGE_SIZE` bytes, little endian: page id,
//! free cursor, freed-slot count `D` and slot count `N` (two bytes each),
//! then the `D` freed slot ids, then the `N` metadata entries as
//! (record length, offset) pairs, then the raw data region up to
//! `PAGE_SIZE`.

use vstd::bytes::{lemma_auto_spec_u16_to_from_le_bytes, spec_u16_from_le_bytes, spec_u16_to_le_bytes};
use vstd::prelude::*;

use crate::page::{
    lemma_values_from_congruence, Metadata, PageModel, spec_get, spec_header_size,
    spec_page_values, spec_wf,
};
use crate::PAGE_SIZE;

verus! {

/// The metadata entries, flattened to 16-bit words: length then offset,
/// entry by entry.
pub open spec fn spec_meta_words(slots: Seq<Metadata>) -> Seq<u16>
    decreases slots.len(),
{
    if slots.len() == 0 {
        Seq::empty()
    } else {
        seq![slots[0].record_size, slots[0].offset_value] + spec_meta_words(slots.drop_first())
    }
}

/// Every 16-bit word of a serialized page header, in order.
pub open spec fn spec_words(m: PageModel) -> Seq<u16> {
    seq![m.page_id, m.cursor, m.free.len() as u16, m.slots.len() as u16] + m.free
        + spec_meta_words(m.slots)
}

/// Little-endian encoding of a word sequence.
pub open spec fn spec_le_words(ws: Seq<u16>) -> Seq<u8>
    decreases ws.len(),
{
    if ws.len() == 0 {
        Seq::empty()
    } else {
        spec_u16_to_le_bytes(ws[0]) + spec_le_words(ws.drop_first())
    }
}

/// The full serialized image of a page: the encoded header words followed
/// by the data region from the end of the header to `PAGE_SIZE`.
pub open spec fn spec_page_bytes(m: PageModel) -> Seq<u8> {
    spec_le_words(spec_words(m)) + m.data.subrange(spec_header_size(m), PAGE_SIZE as int)
}

/// The word at index `k` of a byte sequence read little endian.
pub open spec fn spec_word_at(bytes: Seq<u8>, k: int) -> u16 {
    spec_u16_from_le_bytes(bytes.subrange(2 * k, 2 * k + 2))
}

/// The page a byte image declares, before any consistency check.
pub open spec fn spec_parsed(bytes: Seq<u8>) -> PageModel {
    let d = spec_word_at(bytes, 2) as int;
    let n = spec_word_at(bytes, 3) as int;
    PageModel {
        page_id: spec_word_at(bytes, 0),
        cursor: spec_word_at(bytes, 1),
        free: Seq::new(d as nat, |i: int| spec_word_at(bytes, 4 + i)),
        slots: Seq::new(
            n as nat,
            |k: int|
                Metadata {
                    record_size: spec_word_at(bytes, 4 + d + 2 * k),
                    offset_value: spec_word_at(bytes, 4 + d + 2 * k + 1),
                },
        ),
        data: bytes,
    }
}

/// Deserialization: a page image parses exactly when it has the right length
/// and the page it declares is well formed.
pub open spec fn spec_parse(bytes: Seq<u8>) -> Option<PageModel> {
    if bytes.len() == PAGE_SIZE && spec_wf(spec_parsed(bytes)) {
        Some(spec_parsed(bytes))
    } else {
        None
    }
}

/// An all-zero block never parses: its declared freed-slot and slot counts
/// equal its declared cursor, which then always sits below the header end.
pub proof fn lemma_zero_block_unparsable(bytes: Seq<u8>)
    requires
        forall|i: int| 0 <= i < bytes.len() ==> bytes[i] == 0u8,
    ensures
        spec_parse(bytes) is None,
{
    if bytes.len() == PAGE_SIZE {
        let p = spec_parsed(bytes);
        assert(bytes.subrange(2, 4) =~= bytes.subrange(4, 6));
        assert(bytes.subrange(4, 6) =~= bytes.subrange(6, 8));
        let v = spec_word_at(bytes, 1);
        assert(p.cursor == v);
        assert(spec_word_at(bytes, 2) == v);
        assert(spec_word_at(bytes, 3) == v);
        assert(p.free.len() == v);
        assert(p.slots.len() == v);
        assert(spec_header_size(p) == 8 + 6 * v);
        assert(!(p.cursor + 1 >= spec_header_size(p)));
    }
}

/// Lengths and word-level contents of the flattened metadata entries.
pub proof fn lemma_meta_words(slots: Seq<Metadata>)
    ensures
        spec_meta_words(slots).len() == 2 * slots.len(),
        forall|k: int|
            0 <= k < slots.len() ==> spec_meta_words(slots)[2 * k] == (#[trigger] slots[k]).record_size
                && spec_meta_words(slots)[2 * k + 1] == slots[k].offset_value,
    decreases slots.len(),
{
    if slots.len() > 0 {
        lemma_meta_words(slots.drop_first());
        assert forall|k: int|
            0 <= k < slots.len() implies spec_meta_words(slots)[2 * k] == (#[trigger] slots[k]).record_size
            && spec_meta_words(slots)[2 * k + 1] == slots[k].offset_value by {
            if k > 0 {
                assert(slots.drop_first()[k - 1] == slots[k]);
                assert(spec_meta_words(slots.drop_first())[2 * (k - 1)] == slots[k].record_size);
                assert(spec_meta_words(slots.drop_first())[2 * (k - 1) + 1]
                    == slots[k].offset_value);
                assert(spec_meta_words(slots)[2 * k] == spec_meta_words(slots.drop_first())[2 * k
                    - 2]);
                assert(spec_meta_words(slots)[2 * k + 1] == spec_meta_words(
                    slots.drop_first(),
                )[2 * k - 1]);
            }
        }
    }
}

/// Length of an encoded word sequence, and that reading word `i` back
/// yields the word that was written.
pub proof fn lemma_le_words(ws: Seq<u16>)
    ensures
        spec_le_words(ws).len() == 2 * ws.len(),
        forall|i: int|
            0 <= i < ws.len() ==> spec_le_words(ws).subrange(2 * i, 2 * i + 2)
                == spec_u16_to_le_bytes(#[trigger] ws[i]),
    decreases ws.len(),
{
    lemma_auto_spec_u16_to_from_le_bytes();
    if ws.len() > 0 {
        lemma_le_words(ws.drop_first());
        assert forall|i: int|
            0 <= i < ws.len() implies spec_le_words(ws).subrange(2 * i, 2 * i + 2)
            == spec_u16_to_le_bytes(#[trigger] ws[i]) by {
            if i == 0 {
                assert(spec_le_words(ws).subrange(0, 2) =~= spec_u16_to_le_bytes(ws[0]));
            } else {
                assert(ws.drop_first()[i - 1] == ws[i]);
                assert(spec_le_words(ws.drop_first()).subrange(2 * (i - 1), 2 * (i - 1) + 2)
                    == spec_u16_to_le_bytes(ws[i]));
                assert(spec_le_words(ws).subrange(2 * i, 2 * i + 2) =~= spec_le_words(
                    ws.drop_first(),
                ).subrange(2 * i - 2, 2 * i));
            }
        }
    }
}

/// Appending one word appends its two bytes.
pub proof fn lemma_le_words_push(ws: Seq<u16>, w: u16)
    ensures
        spec_le_words(ws.push(w)) == spec_le_words(ws) + spec_u16_to_le_bytes(w),
    decreases ws.len(),
{
    if ws.len() == 0 {
        assert(ws.push(w)[0] == w);
        assert(ws.push(w).drop_first() =~= Seq::<u16>::empty());
        assert(spec_le_words(ws.push(w)) == spec_u16_to_le_bytes(w) + spec_le_words(
            Seq::<u16>::empty(),
        ));
        assert(spec_le_words(ws.push(w)) =~= spec_u16_to_le_bytes(w));
        assert(spec_le_words(ws) + spec_u16_to_le_bytes(w) =~= spec_u16_to_le_bytes(w));
    } else {
        lemma_le_words_push(ws.drop_first(), w);
        assert(ws.push(w).drop_first() =~= ws.drop_first().push(w));
        assert(ws.push(w)[0] == ws[0]);
        assert(spec_le_words(ws.push(w)) == spec_u16_to_le_bytes(ws[0]) + spec_le_words(
            ws.drop_first().push(w),
        ));
        assert(spec_le_words(ws) + spec_u16_to_le_bytes(w) =~= spec_u16_to_le_bytes(ws[0]) + (
        spec_le_words(ws.drop_first()) + spec_u16_to_le_bytes(w)));
    }
}

/// Reading word `k` of a serialized page yields header word `k`.
pub proof fn lemma_page_bytes_word_at(m: PageModel, k: int)
    requires
        spec_wf(m),
        0 <= k < spec_words(m).len(),
    ensures
        spec_word_at(spec_page_bytes(m), k) == spec_words(m)[k],
{
    lemma_auto_spec_u16_to_from_le_bytes();
    let ws = spec_words(m);
    let b = spec_page_bytes(m);
    lemma_le_words(ws);
    lemma_meta_words(m.slots);
    assert(2 * ws.len() == spec_header_size(m));
    assert(b.subrange(2 * k, 2 * k + 2) =~= spec_le_words(ws).subrange(2 * k, 2 * k + 2));
    assert(spec_u16_from_le_bytes(spec_u16_to_le_bytes(ws[k])) == ws[k]);
}

/// Serialization round trip, stated at the level of page models.
///
/// For every well-formed page, its byte image is exactly `PAGE_SIZE` bytes,
/// parses successfully, and the parsed page carries the same page id, free
/// cursor, freed-slot list, slot metadata and header size, reads the same
/// bytes for every slot id, and serializes back to the identical image.
pub proof fn lemma_page_bytes_parse(m: PageModel)
    requires
        spec_wf(m),
    ensures
        spec_page_bytes(m).len() == PAGE_SIZE,
        spec_parse(spec_page_bytes(m)) is Some,
        ({
            let m2 = spec_parse(spec_page_bytes(m))->Some_0;
            &&& m2.page_id == m.page_id
            &&& m2.cursor == m.cursor
            &&& m2.free == m.free
            &&& m2.slots == m.slots
            &&& spec_header_size(m2) == spec_header_size(m)
            &&& forall|s: u16| spec_get(m2, s) == spec_get(m, s)
            &&& spec_page_values(m2) == spec_page_values(m)
            &&& spec_page_bytes(m2) == spec_page_bytes(m)
        }),
{
    let ws = spec_words(m);
    let b = spec_page_bytes(m);
    let hs = spec_header_size(m);
    lemma_le_words(ws);
    lemma_meta_words(m.slots);
    assert(2 * ws.len() == hs);
    assert(b.len() == PAGE_SIZE);
    lemma_page_bytes_word_at(m, 0);
    lemma_page_bytes_word_at(m, 1);
    lemma_page_bytes_word_at(m, 2);
    lemma_page_bytes_word_at(m, 3);
    let p = spec_parsed(b);
    assert(p.page_id == m.page_id);
    assert(p.cursor == m.cursor);
    assert(p.free.len() == m.free.len());
    assert(p.slots.len() == m.slots.len());
    assert forall|i: int| 0 <= i < m.free.len() implies p.free[i] == m.free[i] by {
        lemma_page_bytes_word_at(m, 4 + i);
        assert(ws[4 + i] == m.free[i]);
    }
    assert(p.free =~= m.free);
    let d = m.free.len() as int;
    assert forall|k: int| 0 <= k < m.slots.len() implies p.slots[k] == m.slots[k] by {
        lemma_page_bytes_word_at(m, 4 + d + 2 * k);
        lemma_page_bytes_word_at(m, 4 + d + 2 * k + 1);
        assert(ws[4 + d + 2 * k] == spec_meta_words(m.slots)[2 * k]);
        assert(ws[4 + d + 2 * k + 1] == spec_meta_words(m.slots)[2 * k + 1]);
    }
    assert(p.slots =~= m.slots);
    // The data regions agree from the end of the header on.
    assert forall|q: int| hs <= q < PAGE_SIZE implies b[q] == m.data[q] by {
        assert(b[q] == m.data.subrange(hs, PAGE_SIZE as int)[q - hs]);
    }
    assert(spec_wf(p));
    assert(spec_parse(b) == Some(p));
    // Every slot reads the same bytes: footprints sit above the header.
    assert forall|s: u16| spec_get(p, s) == spec_get(m, s) by {
        if s < m.slots.len() && !m.free.contains(s) {
            assert(m.slots[s as int].offset_value > m.cursor);
            assert(m.cursor + 1 >= hs);
            assert(m.slots[s as int].offset_value + m.slots[s as int].record_size <= PAGE_SIZE);
            assert(crate::page::spec_value(p, s) =~= crate::page::spec_value(m, s));
        }
    }
    lemma_values_from_congruence(p, m, 0);
    // And the parsed page serializes to the identical image.
    assert(spec_words(p) =~= spec_words(m)) by {
        assert(spec_meta_words(p.slots) == spec_meta_words(m.slots));
    }
    assert(spec_page_bytes(p) =~= spec_page_bytes(m));
}

/// Append the little-endian bytes of one word.
fn push_word(out: &mut Vec<u8>, w: u16)
    ensures
        final(out)@ == old(out)@ + spec_u16_to_le_bytes(w),
{
    let b = vstd::bytes::u16_to_le_bytes(w);
    out.push(b[0]);
    out.push(b[1]);
    proof {
        assert(out@ =~= old(out)@ + spec_u16_to_le_bytes(w));
    }
}

/// Read word `k` of a byte buffer, little endian.
fn read_word(data: &[u8], k: usize) -> (r: u16)
    requires
        2 * k + 2 <= data@.len(),
    ensures
        r == spec_word_at(data@, k as int),
{
    let n = data.len();
    proof {
        assert(2 * k + 2 <= n);
    }
    let sub = vstd::slice::slice_subrange(data, 2 * k, 2 * k + 2);
    vstd::bytes::u16_from_le_bytes(sub)
}

impl crate::page::Page {
    /// Serialize the page into exactly `PAGE_SIZE` bytes.
    #[verifier::loop_isolation(false)]
    pub fn get_bytes(&self) -> (r: Vec<u8>)
        requires
            self.wf(),
        ensures
            r@ == spec_page_bytes(self@),
            r@.len() == PAGE_SIZE,
    {
        let ghost m = self@;
        let ghost ws = spec_words(m);
        proof {
            lemma_le_words(ws);
            lemma_meta_words(m.slots);
        }
        let mut out: Vec<u8> = Vec::new();
        proof {
            assert(out@ =~= spec_le_words(ws.take(0)));
        }
        push_word(&mut out, self.header.p_id);
        proof {
            lemma_le_words_push(ws.take(0), ws[0]);
            assert(ws.take(1) =~= ws.take(0).push(ws[0]));
        }
        push_word(&mut out, self.header.position_last_record);
        proof {
            lemma_le_words_push(ws.take(1), ws[1]);
            assert(ws.take(2) =~= ws.take(1).push(ws[1]));
        }
        push_word(&mut out, self.header.n_deletes);
        proof {
            lemma_le_words_push(ws.take(2), ws[2]);
            assert(ws.take(3) =~= ws.take(2).push(ws[2]));
        }
        push_word(&mut out, self.header.n_records);
        proof {
            lemma_le_words_push(ws.take(3), ws[3]);
            assert(ws.take(4) =~= ws.take(3).push(ws[3]));
            assert(out@ == spec_le_words(ws.take(4)));
        }
        let d = self.header.free_spaces_from_deleted_record.len();
        let n = self.metadata.len();
        let mut i: usize = 0;
        while i < d
            invariant
                i <= d,
                out@ == spec_le_words(ws.take(4 + i)),
            decreases d - i,
        {
            proof {
                assert(ws[4 + i] == m.free[i as int]);
            }
            push_word(&mut out, self.header.free_spaces_from_deleted_record[i]);
            proof {
                lemma_le_words_push(ws.take(4 + i), ws[4 + i]);
                assert(ws.take(4 + i + 1) =~= ws.take(4 + i).push(ws[4 + i]));
            }
            i = i + 1;
        }
        let mut k: usize = 0;
        while k < n
            invariant
                k <= n,
                out@ == spec_le_words(ws.take(4 + d + 2 * k)),
            decreases n - k,
        {
            let md = self.metadata[k];
            proof {
                assert(ws[4 + d + 2 * k] == spec_meta_words(m.slots)[2 * k]);
                assert(ws[4 + d + 2 * k + 1] == spec_meta_words(m.slots)[2 * k + 1]);
            }
            push_word(&mut out, md.record_size);
            proof {
                lemma_le_words_push(ws.take(4 + d + 2 * k), ws[4 + d + 2 * k]);
                assert(ws.take(4 + d + 2 * k + 1) =~= ws.take(4 + d + 2 * k).push(
                    ws[4 + d + 2 * k],
                ));
            }
            push_word(&mut out, md.offset_value);
            proof {
                lemma_le_words_push(ws.take(4 + d + 2 * k + 1), ws[4 + d + 2 * k + 1]);
                assert(ws.take(4 + d + 2 * (k + 1)) =~= ws.take(4 + d + 2 * k + 1).push(
                    ws[4 + d + 2 * k + 1],
                ));
            }
            k = k + 1;
        }
        proof {
            assert(ws.take(4 + d + 2 * n) =~= ws);
            assert(out@ == spec_le_words(ws));
        }
        let hs = self.get_header_size();
        let mut q: usize = hs;
        while q < PAGE_SIZE
            invariant
                hs <= q <= PAGE_SIZE,
                out@ == spec_le_words(ws) + self@.data.subrange(hs as int, q as int),
            decreases PAGE_SIZE - q,
        {
            out.push(self.data[q]);
            proof {
                assert(self@.data.subrange(hs as int, q + 1) =~= self@.data.subrange(
                    hs as int,
                    q as int,
                ).push(self@.data[q as int]));
            }
            q = q + 1;
        }
        proof {
            assert(out@ == spec_page_bytes(m));
        }
        out
    }

    /// Rebuild a page from a byte image.  Fails with `CorruptPage`, exactly
    /// when the image is not `PAGE_SIZE` bytes or its declared header is
    /// inconsistent: header past the page end, free cursor out of place, a
    /// freed id out of range or repeated, or a record footprint that lies
    /// outside the data region or overlaps another.
    #[verifier::loop_isolation(false)]
    pub fn from_bytes(data: &[u8]) -> (r: Result<crate::page::Page, crate::ids::StorageError>)
        ensures
            match r {
                Ok(p) => p.wf() && spec_parse(data@) == Some(p@),
                Err(e) => e == crate::ids::StorageError::CorruptPage && spec_parse(data@) is None,
            },
    {
        let ghost pm = spec_parsed(data@);
        if data.len() != PAGE_SIZE {
            return Err(crate::ids::StorageError::CorruptPage);
        }
        let p_id = read_word(data, 0);
        let cursor = read_word(data, 1);
        let d = read_word(data, 2) as usize;
        let n = read_word(data, 3) as usize;
        proof {
            assert(pm.free.len() == d);
            assert(pm.slots.len() == n);
            assert(pm.cursor == cursor);
            assert(pm.page_id == p_id);
        }
        let hs = 8 + 2 * d + 4 * n;
        if hs > PAGE_SIZE {
            return Err(crate::ids::StorageError::CorruptPage);
        }
        if cursor as usize >= PAGE_SIZE {
            return Err(crate::ids::StorageError::CorruptPage);
        }
        if (cursor as usize) + 1 < hs {
            return Err(crate::ids::StorageError::CorruptPage);
        }
        let mut free: Vec<u16> = Vec::new();
        let mut i: usize = 0;
        while i < d
            invariant
                i <= d,
                free@.len() == i,
                forall|q: int| 0 <= q < i ==> free@[q] == pm.free[q],
                forall|q: int| 0 <= q < i ==> (#[trigger] pm.free[q]) < n,
                forall|p: int, q: int| 0 <= p < q < i ==> pm.free[p] != pm.free[q],
            decreases d - i,
        {
            let w = read_word(data, 4 + i);
            proof {
                assert(pm.free[i as int] == w);
            }
            if w as usize >= n {
                return Err(crate::ids::StorageError::CorruptPage);
            }
            if crate::page::free_list_contains(&free, w) {
                proof {
                    let q = choose|q: int| 0 <= q < i && free@[q] == w;
                    assert(pm.free[q] == pm.free[i as int]);
                }
                return Err(crate::ids::StorageError::CorruptPage);
            }
            free.push(w);
            i = i + 1;
        }
        let mut metadata: Vec<crate::page::Metadata> = Vec::new();
        let mut k: usize = 0;
        while k < n
            invariant
                k <= n,
                metadata@.len() == k,
                forall|q: int| 0 <= q < k ==> metadata@[q] == pm.slots[q],
                forall|q: int| 0 <= q < k ==> (#[trigger] pm.slots[q]).offset_value > cursor,
                forall|q: int|
                    0 <= q < k ==> (#[trigger] pm.slots[q]).offset_value
                        + pm.slots[q].record_size <= PAGE_SIZE,
            decreases n - k,
        {
            let sz = read_word(data, 4 + d + 2 * k);
            let off = read_word(data, 4 + d + 2 * k + 1);
            proof {
                assert(pm.slots[k as int] == crate::page::Metadata {
                    record_size: sz,
                    offset_value: off,
                });
            }
            if off <= cursor {
                return Err(crate::ids::StorageError::CorruptPage);
            }
            if off as usize + sz as usize > PAGE_SIZE {
                return Err(crate::ids::StorageError::CorruptPage);
            }
            metadata.push(crate::page::Metadata { record_size: sz, offset_value: off });
            k = k + 1;
        }
        // Footprints must be pairwise disjoint.
        let mut a: usize = 0;
        while a < n
            invariant
                a <= n,
                metadata@.len() == n,
                forall|q: int| 0 <= q < n ==> metadata@[q] == pm.slots[q],
                forall|p: int, q: int|
                    0 <= p < q < n && p < a ==> crate::page::spec_disjoint(
                        pm.slots[p],
                        pm.slots[q],
                    ),
            decreases n - a,
        {
            let mda = metadata[a];
            let mut b: usize = a + 1;
            while b < n
                invariant
                    a < b <= n,
                    a < n,
                    mda == pm.slots[a as int],
                    metadata@.len() == n,
                    forall|q: int| 0 <= q < n ==> metadata@[q] == pm.slots[q],
                    forall|q: int|
                        a < q < b ==> crate::page::spec_disjoint(pm.slots[a as int], pm.slots[q]),
                decreases n - b,
            {
                let mdb = metadata[b];
                if !(mda.offset_value as usize + mda.record_size as usize
                    <= mdb.offset_value as usize || mdb.offset_value as usize
                    + mdb.record_size as usize <= mda.offset_value as usize) {
                    proof {
                        assert(!crate::page::spec_disjoint(pm.slots[a as int], pm.slots[b as int]));
                    }
                    return Err(crate::ids::StorageError::CorruptPage);
                }
                b = b + 1;
            }
            a = a + 1;
        }
        let buf = vstd::slice::slice_to_vec(data);
        let page = crate::page::Page {
            data: buf,
            header: crate::page::GeneralMetadataHeader {
                p_id,
                position_last_record: cursor,
                n_deletes: d as u16,
                n_records: n as u16,
                free_spaces_from_deleted_record: free,
            },
            metadata,
        };
        proof {
            assert(page@ =~= pm);
            assert(spec_wf(pm));
        }
        Ok(page)
    }
}

} // verus!
