//! The heap file: one container's pages as a sequence of `PAGE_SIZE`
//! blocks, block `k` holding page id `k`.
//!
//! The struct keeps the byte image of the backing file together with the
//! logical page count; the surrounding runtime mirrors the image to the
//! file at `file_path`, block by block, using positioned writes at offset
//! `page_id * PAGE_SIZE`.  The image length is always `page_count *
//! PAGE_SIZE`, exactly the file length.

use vstd::prelude::*;

use crate::codec::{lemma_page_bytes_parse, lemma_zero_block_unparsable, spec_page_bytes,
    spec_parse};
use crate::ids::{PageId, StorageError};
use crate::page::{write_bytes, Page, PageModel};
use crate::PAGE_SIZE;

verus! {

/// Saturating counter bump; the profiling counters stop rather than wrap.
pub open spec fn spec_bump(c: u64) -> u64 {
    if c < u64::MAX {
        (c + 1) as u64
    } else {
        c
    }
}

/// The bytes of a block never written: all zero.
pub open spec fn spec_zero_block() -> Seq<u8> {
    Seq::new(PAGE_SIZE as nat, |i: int| 0u8)
}

/// What one page write does to a heap file's contents: block `page_id` now
/// holds the page's image, blocks below the old count are otherwise
/// untouched, any gap the write jumped over is zero filled, and the page
/// count advances to cover the written block without ever shrinking.
pub open spec fn spec_wrote(hf1: HeapFile, hf2: HeapFile, pm: PageModel) -> bool {
    &&& hf2.spec_file_path() == hf1.spec_file_path()
    &&& hf2.spec_num_pages() as int == vstd::math::max(
        pm.page_id + 1,
        hf1.spec_num_pages() as int,
    )
    &&& hf2.spec_block(pm.page_id as int) == spec_page_bytes(pm)
    &&& forall|q: int|
        0 <= q < hf1.spec_num_pages() && q != pm.page_id ==> hf2.spec_block(q)
            == hf1.spec_block(q)
    &&& forall|q: int|
        hf1.spec_num_pages() <= q < hf2.spec_num_pages() && q != pm.page_id ==> hf2.spec_block(q)
            == spec_zero_block()
}

/// The heap file of one container.
pub struct HeapFile {
    /// Path of the backing file; the path, not a handle, is what persists.
    pub file_path: String,
    image: Vec<u8>,
    num_of_pages: PageId,
    read_count: u64,
    write_count: u64,
}

impl HeapFile {
    /// The backing file's path.
    pub closed spec fn spec_file_path(&self) -> Seq<char> {
        self.file_path@
    }

    /// The bytes of the backing file.
    pub closed spec fn spec_image(&self) -> Seq<u8> {
        self.image@
    }

    /// The logical page count.
    pub closed spec fn spec_num_pages(&self) -> PageId {
        self.num_of_pages
    }

    /// Reads served so far.
    pub closed spec fn spec_read_count(&self) -> u64 {
        self.read_count
    }

    /// Writes served so far.
    pub closed spec fn spec_write_count(&self) -> u64 {
        self.write_count
    }

    /// The file length is always `page_count * PAGE_SIZE`, and any block
    /// that parses declares its own block index as its page id, since every
    /// write lands at the offset the page's own id names.
    pub open spec fn wf(&self) -> bool {
        &&& self.spec_image().len() == self.spec_num_pages() * (PAGE_SIZE as int)
        &&& forall|q: int|
            0 <= q < self.spec_num_pages() && (#[trigger] self.spec_page_at(q)) is Some
                ==> self.spec_page_at(q)->Some_0.page_id == q
    }

    /// The `PAGE_SIZE` bytes of block `pid`.
    pub open spec fn spec_block(&self, pid: int) -> Seq<u8> {
        self.spec_image().subrange(pid * (PAGE_SIZE as int), (pid + 1) * (PAGE_SIZE as int))
    }

    /// The page stored in block `pid`, if the block parses.
    pub open spec fn spec_page_at(&self, pid: int) -> Option<PageModel> {
        spec_parse(self.spec_block(pid))
    }

    /// Create a heap file for the given backing path, with page count 0.
    /// The count of a reopened file is recovered by the opening caller from
    /// the file length before first use.
    pub fn new(file_path: String) -> (hf: HeapFile)
        ensures
            hf.wf(),
            hf.spec_file_path() == file_path@,
            hf.spec_num_pages() == 0,
            hf.spec_image() == Seq::<u8>::empty(),
            hf.spec_read_count() == 0,
            hf.spec_write_count() == 0,
    {
        let hf = HeapFile {
            file_path,
            image: Vec::new(),
            num_of_pages: 0,
            read_count: 0,
            write_count: 0,
        };
        hf
    }

    /// Recovered page count of a reopened file: set it once, before any
    /// page is read or written, from the backing file's length divided by
    /// `PAGE_SIZE`.  The image is resized to match, zero filled; the caller
    /// then loads the blocks it needs.
    pub fn set_recovered_page_count(&mut self, count: PageId)
        requires
            old(self).wf(),
            old(self).spec_num_pages() == 0,
            old(self).spec_image().len() == 0,
        ensures
            final(self).wf(),
            final(self).spec_num_pages() == count,
            final(self).spec_file_path() == old(self).spec_file_path(),
            final(self).spec_read_count() == old(self).spec_read_count(),
            final(self).spec_write_count() == old(self).spec_write_count(),
            forall|q: int|
                0 <= q < count ==> final(self).spec_block(q) == Seq::new(
                    PAGE_SIZE as nat,
                    |i: int| 0u8,
                ),
    {
        let target = count as usize * PAGE_SIZE;
        while self.image.len() < target
            invariant
                self.image@.len() <= target,
                forall|i: int| 0 <= i < self.image@.len() ==> self.image@[i] == 0u8,
                *self == (HeapFile { image: self.image, ..*old(self) }),
            decreases target - self.image.len(),
        {
            self.image.push(0u8);
        }
        self.num_of_pages = count;
        proof {
            assert forall|q: int|
                0 <= q < count implies self.spec_block(q) == Seq::new(
                PAGE_SIZE as nat,
                |i: int| 0u8,
            ) by {
                assert(self.spec_block(q) =~= Seq::new(PAGE_SIZE as nat, |i: int| 0u8));
            }
            assert forall|q: int|
                0 <= q < self.spec_num_pages() implies !((#[trigger] self.spec_page_at(q))
                is Some) by {
                lemma_zero_block_unparsable(self.spec_block(q));
            }
        }
    }

    /// The current logical page count.
    pub fn num_pages(&self) -> (r: PageId)
        ensures
            r == self.spec_num_pages(),
    {
        self.num_of_pages
    }

    /// Reads and writes served so far.
    pub fn get_read_write_count(&self) -> (r: (u64, u64))
        ensures
            r.0 == self.spec_read_count(),
            r.1 == self.spec_write_count(),
    {
        (self.read_count, self.write_count)
    }

    /// Serialize `page` and store it at block `page.id`, padding any gap
    /// with zero blocks.  Writing at an existing page id overwrites that
    /// block in place; writing at or past the current count advances the
    /// count to `page.id + 1`.  The count never shrinks.
    #[verifier::loop_isolation(false)]
    pub fn write_page_to_file(&mut self, page: Page) -> (r: Result<(), StorageError>)
        requires
            old(self).wf(),
            page.wf(),
            page@.page_id < PageId::MAX,
        ensures
            final(self).wf(),
            r is Ok,
            final(self).spec_file_path() == old(self).spec_file_path(),
            final(self).spec_read_count() == old(self).spec_read_count(),
            final(self).spec_write_count() == spec_bump(old(self).spec_write_count()),
            spec_wrote(*old(self), *final(self), page@),
    {
        let ghost old_hf = *old(self);
        let bytes = page.get_bytes();
        let pid = page.get_page_id();
        if pid < self.num_of_pages {
            write_bytes(&mut self.image, pid as usize * PAGE_SIZE, bytes.as_slice());
            proof {
                assert(self.spec_block(pid as int) =~= bytes@);
                assert forall|q: int|
                    0 <= q < old_hf.spec_num_pages() && q != pid implies self.spec_block(q)
                    == old_hf.spec_block(q) by {
                    assert(self.spec_block(q) =~= old_hf.spec_block(q));
                }
            }
        } else {
            let target = pid as usize * PAGE_SIZE;
            while self.image.len() < target
                invariant
                    old_hf.spec_image().len() <= self.image@.len() <= target,
                    forall|i: int|
                        0 <= i < self.image@.len() ==> self.image@[i] == if i < old_hf.spec_image().len() {
                            old_hf.spec_image()[i]
                        } else {
                            0u8
                        },
                    *self == (HeapFile { image: self.image, ..old_hf }),
                decreases target - self.image.len(),
            {
                self.image.push(0u8);
            }
            let mut k: usize = 0;
            while k < PAGE_SIZE
                invariant
                    k <= PAGE_SIZE,
                    bytes@.len() == PAGE_SIZE,
                    self.image@.len() == target + k,
                    forall|i: int|
                        0 <= i < target ==> self.image@[i] == if i < old_hf.spec_image().len() {
                            old_hf.spec_image()[i]
                        } else {
                            0u8
                        },
                    forall|i: int| target <= i < target + k ==> self.image@[i] == bytes@[i - target],
                    *self == (HeapFile { image: self.image, ..old_hf }),
                decreases PAGE_SIZE - k,
            {
                self.image.push(bytes[k]);
                k = k + 1;
            }
            self.num_of_pages = pid + 1;
            proof {
                assert(self.spec_block(pid as int) =~= bytes@);
                assert forall|q: int|
                    0 <= q < old_hf.spec_num_pages() && q != pid implies self.spec_block(q)
                    == old_hf.spec_block(q) by {
                    assert(self.spec_block(q) =~= old_hf.spec_block(q));
                }
                assert forall|q: int|
                    old_hf.spec_num_pages() <= q < self.spec_num_pages() && q != pid implies self.spec_block(
                    q,
                ) == spec_zero_block() by {
                    assert(self.spec_block(q) =~= spec_zero_block());
                }
            }
        }
        if self.write_count < u64::MAX {
            self.write_count = self.write_count + 1;
        }
        proof {
            assert(self.spec_file_path() == old_hf.spec_file_path());
            assert(self.spec_num_pages() as int == vstd::math::max(
                page@.page_id + 1,
                old_hf.spec_num_pages() as int,
            ));
            assert(self.spec_block(page@.page_id as int) == spec_page_bytes(page@));
            assert(forall|q: int|
                0 <= q < old_hf.spec_num_pages() && q != page@.page_id ==> self.spec_block(q)
                    == old_hf.spec_block(q));
            assert(forall|q: int|
                old_hf.spec_num_pages() <= q < self.spec_num_pages() && q != page@.page_id
                    ==> self.spec_block(q) == spec_zero_block());
            lemma_page_bytes_parse(page@);
            assert forall|q: int|
                0 <= q < self.spec_num_pages() && (#[trigger] self.spec_page_at(q))
                is Some implies self.spec_page_at(q)->Some_0.page_id == q by {
                if q == page@.page_id {
                    assert(self.spec_page_at(q) == spec_parse(spec_page_bytes(page@)));
                } else if q < old_hf.spec_num_pages() {
                    assert(self.spec_page_at(q) == old_hf.spec_page_at(q));
                } else {
                    lemma_zero_block_unparsable(self.spec_block(q));
                }
            }
        }
        Ok(())
    }

    /// Read block `pid` and deserialize it.  Fails with `InvalidValueId`
    /// when the block lies beyond the current page count, and with
    /// `CorruptPage` when the block does not parse (for instance a zero
    /// block from a padded gap that was never written).
    pub fn read_page_from_file(&mut self, pid: PageId) -> (r: Result<Page, StorageError>)
        requires
            old(self).wf(),
        ensures
            final(self).wf(),
            final(self).spec_image() == old(self).spec_image(),
            final(self).spec_num_pages() == old(self).spec_num_pages(),
            final(self).spec_file_path() == old(self).spec_file_path(),
            final(self).spec_write_count() == old(self).spec_write_count(),
            match r {
                Ok(p) => {
                    &&& pid < old(self).spec_num_pages()
                    &&& old(self).spec_page_at(pid as int) == Some(p@)
                    &&& p.wf()
                    &&& final(self).spec_read_count() == spec_bump(old(self).spec_read_count())
                },
                Err(e) => {
                    &&& final(self).spec_read_count() == old(self).spec_read_count()
                    &&& (e == StorageError::InvalidValueId <==> pid >= old(self).spec_num_pages())
                    &&& (e == StorageError::CorruptPage <==> pid < old(self).spec_num_pages()
                        && old(self).spec_page_at(pid as int) is None)
                    &&& (e == StorageError::InvalidValueId || e == StorageError::CorruptPage)
                },
            },
    {
        if pid >= self.num_of_pages {
            return Err(StorageError::InvalidValueId);
        }
        let start = pid as usize * PAGE_SIZE;
        let block = vstd::slice::slice_subrange(self.image.as_slice(), start, start + PAGE_SIZE);
        let r = Page::from_bytes(block);
        proof {
            assert forall|q: int|
                0 <= q < self.spec_num_pages() && (#[trigger] self.spec_page_at(q))
                is Some implies self.spec_page_at(q)->Some_0.page_id == q by {
                assert(self.spec_block(q) == old(self).spec_block(q));
            }
        }
        match r {
            Ok(p) => {
                if self.read_count < u64::MAX {
                    self.read_count = self.read_count + 1;
                }
                proof {
                    assert forall|q: int|
                        0 <= q < self.spec_num_pages() && (#[trigger] self.spec_page_at(q))
                        is Some implies self.spec_page_at(q)->Some_0.page_id == q by {
                        assert(self.spec_block(q) == old(self).spec_block(q));
                        assert(self.spec_page_at(q) == old(self).spec_page_at(q));
                        assert(old(self).spec_page_at(q) is Some);
                    }
                }
                Ok(p)
            },
            Err(_) => Err(StorageError::CorruptPage),
        }
    }
}

/// The page count never decreases: after any write it equals the written
/// page's id plus one or the old count, whichever is larger.
pub proof fn lemma_page_count_monotonic(hf1: HeapFile, hf2: HeapFile, pm: PageModel)
    requires
        spec_wrote(hf1, hf2, pm),
    ensures
        hf2.spec_num_pages() >= hf1.spec_num_pages(),
        hf2.spec_num_pages() as int == vstd::math::max(
            pm.page_id + 1,
            hf1.spec_num_pages() as int,
        ),
{
}

/// Writing a page and reading its block back yields a page with the very
/// same byte image: the write stores `spec_page_bytes(page)`, and parsing
/// that image gives a page that reads the same at every slot and
/// serializes to the identical bytes.
pub proof fn lemma_write_read_round_trip(m: PageModel)
    requires
        crate::page::spec_wf(m),
    ensures
        spec_parse(spec_page_bytes(m)) is Some,
        spec_page_bytes(spec_parse(spec_page_bytes(m))->Some_0) == spec_page_bytes(m),
        forall|s: u16|
            crate::page::spec_get(spec_parse(spec_page_bytes(m))->Some_0, s)
                == crate::page::spec_get(m, s),
{
    lemma_page_bytes_parse(m);
}

} // verus!
