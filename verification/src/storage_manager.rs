//! The storage manager: a map from container ids to heap files, value-level
//! insert, get, update and delete composed from page operations and heap
//! file transfers, and a full-container scan.
//!
//! All state lives in the heap files' images; the surrounding runtime
//! mirrors those images to files under the storage root and handles
//! directory creation and teardown.

use vstd::prelude::*;
use vstd::std_specs::vec::vec_index_mut;

use crate::heapfile::{spec_wrote, HeapFile};
use crate::ids::{ContainerConfig, ContainerId, PageId, Permissions, StateType, StorageError,
    TransactionId, ValueId};
use crate::page::{spec_add, spec_can_add, spec_delete, spec_delete_ok, spec_empty_page, spec_get,
    spec_live, Page, PageModel};
use crate::PAGE_SIZE;

verus! {

/// Largest payload a page can ever hold: a fresh page offers
/// `PAGE_SIZE - 8` bytes, of which a brand-new slot costs 4 for its
/// metadata entry, so a value longer than `PAGE_SIZE - 12` fits nowhere.
pub const MAX_VALUE_SIZE: usize = 4084;

/// First index in `s` whose container id is `cid`.
pub open spec fn spec_find_idx(s: Seq<(ContainerId, HeapFile)>, cid: ContainerId) -> Option<int>
    decreases s.len(),
{
    if s.len() == 0 {
        None
    } else if s[0].0 == cid {
        Some(0)
    } else {
        match spec_find_idx(s.drop_first(), cid) {
            Some(i) => Some(i + 1),
            None => None,
        }
    }
}

/// Characterize `spec_find_idx` as the first matching index.
pub proof fn lemma_find_idx(s: Seq<(ContainerId, HeapFile)>, cid: ContainerId)
    ensures
        match spec_find_idx(s, cid) {
            Some(i) => {
                &&& 0 <= i < s.len()
                &&& s[i].0 == cid
                &&& forall|j: int| 0 <= j < i ==> (#[trigger] s[j]).0 != cid
            },
            None => forall|j: int| 0 <= j < s.len() ==> (#[trigger] s[j]).0 != cid,
        },
    decreases s.len(),
{
    if s.len() > 0 && s[0].0 != cid {
        lemma_find_idx(s.drop_first(), cid);
        match spec_find_idx(s.drop_first(), cid) {
            Some(i) => {
                assert(s.drop_first()[i] == s[i + 1]);
                assert forall|j: int| 0 <= j < i + 1 implies (#[trigger] s[j]).0 != cid by {
                    if j > 0 {
                        assert(s.drop_first()[j - 1] == s[j]);
                    }
                }
            },
            None => {
                assert forall|j: int| 0 <= j < s.len() implies (#[trigger] s[j]).0 != cid by {
                    if j > 0 {
                        assert(s.drop_first()[j - 1] == s[j]);
                    }
                }
            },
        }
    }
}

/// `spec_find_idx` depends only on the container ids.
pub proof fn lemma_find_idx_same_ids(
    s1: Seq<(ContainerId, HeapFile)>,
    s2: Seq<(ContainerId, HeapFile)>,
    cid: ContainerId,
)
    requires
        s1.len() == s2.len(),
        forall|j: int| 0 <= j < s1.len() ==> (#[trigger] s1[j]).0 == s2[j].0,
    ensures
        spec_find_idx(s1, cid) == spec_find_idx(s2, cid),
    decreases s1.len(),
{
    if s1.len() > 0 {
        assert forall|j: int|
            0 <= j < s1.drop_first().len() implies (#[trigger] s1.drop_first()[j]).0
            == s2.drop_first()[j].0 by {
            assert(s1.drop_first()[j] == s1[j + 1]);
            assert(s2.drop_first()[j] == s2[j + 1]);
        }
        lemma_find_idx_same_ids(s1.drop_first(), s2.drop_first(), cid);
    }
}

/// Two heap files hold the same contents (profiling counters aside).
pub open spec fn spec_same_store(h2: HeapFile, h1: HeapFile) -> bool {
    &&& h2.spec_file_path() == h1.spec_file_path()
    &&& h2.spec_image() == h1.spec_image()
    &&& h2.spec_num_pages() == h1.spec_num_pages()
}

/// The storage manager.
pub struct StorageManager {
    containers: Vec<(ContainerId, HeapFile)>,
    storage_path: String,
    is_temp: bool,
}

impl StorageManager {
    /// The container map as a sequence of (id, heap file) pairs.
    pub closed spec fn spec_containers(&self) -> Seq<(ContainerId, HeapFile)> {
        self.containers@
    }

    /// Root directory under which the runtime keeps the heap files.
    pub closed spec fn spec_storage_path(&self) -> Seq<char> {
        self.storage_path@
    }

    /// Whether teardown should remove all stored data.
    pub closed spec fn spec_is_temp(&self) -> bool {
        self.is_temp
    }

    /// Whether `cid` is mapped.
    pub open spec fn spec_has_container(&self, cid: ContainerId) -> bool {
        spec_find_idx(self.spec_containers(), cid) is Some
    }

    /// Index of `cid`'s entry in the container map.
    pub open spec fn spec_container_idx(&self, cid: ContainerId) -> int {
        spec_find_idx(self.spec_containers(), cid)->Some_0
    }

    /// The heap file mapped to `cid`.
    pub open spec fn spec_container(&self, cid: ContainerId) -> HeapFile {
        self.spec_containers()[self.spec_container_idx(cid)].1
    }

    /// Container ids are unique and every heap file is well formed.
    pub open spec fn wf(&self) -> bool {
        &&& forall|i: int, j: int|
            0 <= i < j < self.spec_containers().len() ==> (#[trigger] self.spec_containers()[i]).0
                != (#[trigger] self.spec_containers()[j]).0
        &&& forall|i: int|
            0 <= i < self.spec_containers().len() ==> (#[trigger] self.spec_containers()[i]).1.wf()
    }

    /// Create a storage manager rooted at `storage_path`, with no
    /// containers mapped.  The runtime creates the directory and, on
    /// reopen, reloads the persisted catalog into the map.
    pub fn new(storage_path: String) -> (sm: StorageManager)
        ensures
            sm.wf(),
            sm.spec_containers().len() == 0,
            sm.spec_storage_path() == storage_path@,
            !sm.spec_is_temp(),
    {
        StorageManager { containers: Vec::new(), storage_path, is_temp: false }
    }

    /// Create a storage manager for testing, marked temporary so that
    /// teardown removes all data.  The runtime picks a private root
    /// directory for it.
    pub fn new_test_sm() -> (sm: StorageManager)
        ensures
            sm.wf(),
            sm.spec_containers().len() == 0,
            sm.spec_is_temp(),
    {
        StorageManager { containers: Vec::new(), storage_path: String::new(), is_temp: true }
    }

    /// The default container configuration.
    pub fn get_simple_config() -> (r: ContainerConfig)
        ensures
            r.temporary == false,
    {
        ContainerConfig::simple_container()
    }

    /// Root directory of this manager, for the surrounding runtime.
    pub fn get_storage_path(&self) -> (r: &String)
        ensures
            r@ == self.spec_storage_path(),
    {
        &self.storage_path
    }

    /// Whether this manager is temporary, for the surrounding runtime.
    pub fn is_temp(&self) -> (r: bool)
        ensures
            r == self.spec_is_temp(),
    {
        self.is_temp
    }

    /// The mapped container ids, in map order, for the runtime's catalog.
    pub fn container_ids(&self) -> (r: Vec<ContainerId>)
        ensures
            r@.len() == self.spec_containers().len(),
            forall|i: int|
                0 <= i < r@.len() ==> r@[i] == (#[trigger] self.spec_containers()[i]).0,
    {
        let mut out: Vec<ContainerId> = Vec::new();
        let mut i: usize = 0;
        while i < self.containers.len()
            invariant
                i <= self.spec_containers().len(),
                out@.len() == i,
                forall|j: int|
                    0 <= j < i ==> out@[j] == (#[trigger] self.spec_containers()[j]).0,
            decreases self.spec_containers().len() - i,
        {
            out.push(self.containers[i].0);
            i = i + 1;
        }
        out
    }
}

/// Find the entry of `cid`, matching `spec_find_idx`.
#[verifier::loop_isolation(false)]
fn find_container(v: &Vec<(ContainerId, HeapFile)>, cid: ContainerId) -> (r: Option<usize>)
    ensures
        match r {
            Some(i) => spec_find_idx(v@, cid) == Some(i as int),
            None => spec_find_idx(v@, cid) is None,
        },
{
    proof {
        lemma_find_idx(v@, cid);
    }
    let mut i: usize = 0;
    while i < v.len()
        invariant
            i <= v@.len(),
            forall|j: int| 0 <= j < i ==> (#[trigger] v@[j]).0 != cid,
        decreases v@.len() - i,
    {
        if v[i].0 == cid {
            proof {
                match spec_find_idx(v@, cid) {
                    Some(k) => {
                        if k < i as int {
                            assert(v@[k].0 != cid);
                        }
                        if k > i as int {
                            assert(v@[i as int].0 != cid);
                        }
                    },
                    None => {
                        assert(v@[i as int].0 != cid);
                    },
                }
            }
            return Some(i);
        }
        i = i + 1;
    }
    None
}

impl StorageManager {
    /// Map a new container.  Fails with `ContainerAlreadyExists`, changing
    /// nothing, if `container_id` is already mapped; otherwise creates an
    /// empty heap file for it, recording the storage root as its path (the
    /// runtime derives the file's name under that root from the container
    /// id).  Configuration, name, type and dependencies are accepted for a
    /// higher schema layer and not interpreted here.
    pub fn create_container(
        &mut self,
        container_id: ContainerId,
        _container_config: ContainerConfig,
        _name: Option<String>,
        _container_type: StateType,
        _dependencies: Option<Vec<ContainerId>>,
    ) -> (r: Result<(), StorageError>)
        requires
            old(self).wf(),
        ensures
            final(self).wf(),
            final(self).spec_storage_path() == old(self).spec_storage_path(),
            final(self).spec_is_temp() == old(self).spec_is_temp(),
            old(self).spec_has_container(container_id) ==> r == Err::<(), StorageError>(
                StorageError::ContainerAlreadyExists,
            ) && *final(self) == *old(self),
            !old(self).spec_has_container(container_id) ==> {
                &&& r is Ok
                &&& final(self).spec_has_container(container_id)
                &&& final(self).spec_container(container_id).spec_num_pages() == 0
                &&& final(self).spec_container(container_id).spec_image() == Seq::<u8>::empty()
                &&& final(self).spec_containers() == old(self).spec_containers().push(
                    (container_id, final(self).spec_container(container_id)),
                )
                &&& forall|c: ContainerId|
                    c != container_id ==> #[trigger] final(self).spec_has_container(c)
                        == old(self).spec_has_container(c)
                &&& forall|c: ContainerId|
                    c != container_id && old(self).spec_has_container(c)
                        ==> #[trigger] final(self).spec_container(c) == old(self).spec_container(c)
            },
    {
        let ghost s0 = self.spec_containers();
        match find_container(&self.containers, container_id) {
            Some(_) => Err(StorageError::ContainerAlreadyExists),
            None => {
                let hf = HeapFile::new(self.storage_path.clone());
                self.containers.push((container_id, hf));
                proof {
                    let s1 = self.spec_containers();
                    let e = s1[s1.len() - 1];
                    lemma_find_idx(s0, container_id);
                    lemma_push_find(s0, container_id, e.1);
                    assert(s1 == s0.push((container_id, e.1)));
                    assert(spec_find_idx(s1, container_id) == Some(s0.len() as int));
                    assert(self.spec_container(container_id) == e.1);
                    assert forall|c: ContainerId|
                        c != container_id && old(self).spec_has_container(c) implies #[trigger] self.spec_container(
                        c,
                    ) == old(self).spec_container(c) by {
                        assert(spec_find_idx(s1, c) == spec_find_idx(s0, c));
                        lemma_find_idx(s0, c);
                        let k = spec_find_idx(s0, c)->Some_0;
                        assert(s1[k] == s0[k]);
                    }
                    assert forall|c: ContainerId| c != container_id implies #[trigger] self.spec_has_container(
                        c,
                    ) == old(self).spec_has_container(c) by {
                        assert(spec_find_idx(s1, c) == spec_find_idx(s0, c));
                    }
                }
                Ok(())
            },
        }
    }

    /// A wrapper that creates a base table container with the default
    /// configuration.
    pub fn create_table(&mut self, container_id: ContainerId) -> (r: Result<(), StorageError>)
        requires
            old(self).wf(),
        ensures
            final(self).wf(),
            final(self).spec_storage_path() == old(self).spec_storage_path(),
            final(self).spec_is_temp() == old(self).spec_is_temp(),
            old(self).spec_has_container(container_id) ==> r == Err::<(), StorageError>(
                StorageError::ContainerAlreadyExists,
            ) && *final(self) == *old(self),
            !old(self).spec_has_container(container_id) ==> {
                &&& r is Ok
                &&& final(self).spec_has_container(container_id)
                &&& final(self).spec_container(container_id).spec_num_pages() == 0
                &&& final(self).spec_container(container_id).spec_image() == Seq::<u8>::empty()
                &&& forall|c: ContainerId|
                    c != container_id ==> #[trigger] final(self).spec_has_container(c)
                        == old(self).spec_has_container(c)
                &&& forall|c: ContainerId|
                    c != container_id && old(self).spec_has_container(c)
                        ==> #[trigger] final(self).spec_container(c) == old(self).spec_container(c)
            },
    {
        self.create_container(
            container_id,
            StorageManager::get_simple_config(),
            None,
            StateType::BaseTable,
            None,
        )
    }

    /// Unmap a container and forget its heap file (the runtime deletes the
    /// underlying file).  Fails with `ContainerNotFound` if `container_id`
    /// is not mapped.
    pub fn remove_container(&mut self, container_id: ContainerId) -> (r: Result<
        (),
        StorageError,
    >)
        requires
            old(self).wf(),
        ensures
            final(self).wf(),
            final(self).spec_storage_path() == old(self).spec_storage_path(),
            final(self).spec_is_temp() == old(self).spec_is_temp(),
            !old(self).spec_has_container(container_id) ==> r == Err::<(), StorageError>(
                StorageError::ContainerNotFound,
            ) && *final(self) == *old(self),
            old(self).spec_has_container(container_id) ==> {
                &&& r is Ok
                &&& !final(self).spec_has_container(container_id)
                &&& final(self).spec_containers() == old(self).spec_containers().remove(
                    old(self).spec_container_idx(container_id),
                )
                &&& forall|c: ContainerId|
                    c != container_id ==> #[trigger] final(self).spec_has_container(c)
                        == old(self).spec_has_container(c)
                &&& forall|c: ContainerId|
                    c != container_id && old(self).spec_has_container(c)
                        ==> #[trigger] final(self).spec_container(c) == old(self).spec_container(c)
            },
    {
        let ghost s0 = self.spec_containers();
        match find_container(&self.containers, container_id) {
            None => Err(StorageError::ContainerNotFound),
            Some(i) => {
                proof {
                    lemma_find_idx(s0, container_id);
                }
                self.containers.remove(i);
                proof {
                    lemma_remove_find(s0, container_id, i as int);
                }
                Ok(())
            },
        }
    }

    /// Drop every container mapping, returning the manager to the empty
    /// state at the same storage root (the runtime deletes the files).
    pub fn reset(&mut self) -> (r: Result<(), StorageError>)
        requires
            old(self).wf(),
        ensures
            final(self).wf(),
            r is Ok,
            final(self).spec_containers().len() == 0,
            final(self).spec_storage_path() == old(self).spec_storage_path(),
            final(self).spec_is_temp() == old(self).spec_is_temp(),
    {
        self.containers.clear();
        Ok(())
    }

    /// Transactions hold no resources at this layer; the notification is
    /// accepted and nothing changes.
    pub fn transaction_finished(&self, _tid: TransactionId) {
    }

    /// There is no buffer pool or cache at this layer; nothing to clear.
    pub fn clear_cache(&self) {
    }

    /// Current page count of a mapped container.
    pub fn get_num_pages(&self, container_id: ContainerId) -> (r: PageId)
        requires
            self.wf(),
            self.spec_has_container(container_id),
        ensures
            r == self.spec_container(container_id).spec_num_pages(),
    {
        proof {
            lemma_find_idx(self.spec_containers(), container_id);
        }
        match find_container(&self.containers, container_id) {
            Some(i) => self.containers[i].1.num_pages(),
            None => {
                proof {
                    assert(false);
                }
                0
            },
        }
    }

    /// Reads and writes served by a container's heap file; `(0, 0)` for an
    /// unmapped container id.
    pub fn get_hf_read_write_count(&self, container_id: ContainerId) -> (r: (u64, u64))
        requires
            self.wf(),
        ensures
            self.spec_has_container(container_id) ==> r.0 == self.spec_container(
                container_id,
            ).spec_read_count() && r.1 == self.spec_container(container_id).spec_write_count(),
            !self.spec_has_container(container_id) ==> r == (0u64, 0u64),
    {
        proof {
            lemma_find_idx(self.spec_containers(), container_id);
        }
        match find_container(&self.containers, container_id) {
            Some(i) => self.containers[i].1.get_read_write_count(),
            None => (0, 0),
        }
    }
}

/// The container maps of `m1` and `m2` agree on every entry except, at
/// most, the heap file mapped to `cid`.
pub open spec fn spec_others_same(m1: StorageManager, m2: StorageManager, cid: ContainerId) -> bool {
    &&& m2.spec_containers().len() == m1.spec_containers().len()
    &&& forall|j: int|
        0 <= j < m1.spec_containers().len() ==> (#[trigger] m2.spec_containers()[j]).0
            == m1.spec_containers()[j].0
    &&& forall|j: int|
        0 <= j < m1.spec_containers().len() && m1.spec_containers()[j].0 != cid ==> (
        #[trigger] m2.spec_containers()[j]).1 == m1.spec_containers()[j].1
}

/// From entry-level agreement to lookup-level agreement: the same ids are
/// mapped, indices agree, and every container but `cid` maps to the very
/// same heap file.
pub proof fn lemma_others_same_lookup(m1: StorageManager, m2: StorageManager, cid: ContainerId)
    requires
        spec_others_same(m1, m2, cid),
    ensures
        forall|c: ContainerId| #[trigger] m2.spec_has_container(c) == m1.spec_has_container(c),
        forall|c: ContainerId|
            m1.spec_has_container(c) ==> #[trigger] m2.spec_container_idx(c)
                == m1.spec_container_idx(c),
        forall|c: ContainerId|
            c != cid && m1.spec_has_container(c) ==> #[trigger] m2.spec_container(c)
                == m1.spec_container(c),
{
    assert forall|c: ContainerId| #[trigger] m2.spec_has_container(c)
        == m1.spec_has_container(c) by {
        lemma_find_idx_same_ids(m1.spec_containers(), m2.spec_containers(), c);
    }
    assert forall|c: ContainerId|
        m1.spec_has_container(c) implies #[trigger] m2.spec_container_idx(c)
        == m1.spec_container_idx(c) by {
        lemma_find_idx_same_ids(m1.spec_containers(), m2.spec_containers(), c);
    }
    assert forall|c: ContainerId|
        c != cid && m1.spec_has_container(c) implies #[trigger] m2.spec_container(c)
        == m1.spec_container(c) by {
        lemma_find_idx_same_ids(m1.spec_containers(), m2.spec_containers(), c);
        lemma_find_idx(m1.spec_containers(), c);
    }
}

/// The page an insert at `pid` starts from: the stored page when the block
/// exists, a fresh empty page when `pid` is the page count.
pub open spec fn spec_probe_page(hf: HeapFile, pid: PageId) -> PageModel {
    if (pid as int) < hf.spec_num_pages() as int {
        hf.spec_page_at(pid as int)->Some_0
    } else {
        spec_empty_page(pid)
    }
}

/// Every block strictly below `pid` holds a parsable page with no room for
/// `len` more bytes.
pub open spec fn spec_scanned_full(hf: HeapFile, pid: int, len: int) -> bool {
    forall|q: int|
        0 <= q < pid ==> (#[trigger] hf.spec_page_at(q)) is Some && !spec_can_add(
            hf.spec_page_at(q)->Some_0,
            len,
        )
}

impl StorageManager {
    /// Read one page of a container, or `None` when the container is not
    /// mapped, the page id lies beyond its page count, or the block does
    /// not parse.
    pub fn get_page(
        &mut self,
        container_id: ContainerId,
        page_id: PageId,
        _tid: TransactionId,
        _perm: Permissions,
        _pin: bool,
    ) -> (r: Option<Page>)
        requires
            old(self).wf(),
        ensures
            final(self).wf(),
            final(self).spec_storage_path() == old(self).spec_storage_path(),
            final(self).spec_is_temp() == old(self).spec_is_temp(),
            spec_others_same(*old(self), *final(self), container_id),
            old(self).spec_has_container(container_id) ==> spec_same_store(
                final(self).spec_container(container_id),
                old(self).spec_container(container_id),
            ),
            match r {
                Some(p) => {
                    &&& old(self).spec_has_container(container_id)
                    &&& page_id < old(self).spec_container(container_id).spec_num_pages()
                    &&& old(self).spec_container(container_id).spec_page_at(page_id as int)
                        == Some(p@)
                    &&& p.wf()
                },
                None => !old(self).spec_has_container(container_id) || page_id >= old(
                    self,
                ).spec_container(container_id).spec_num_pages() || old(self).spec_container(
                    container_id,
                ).spec_page_at(page_id as int) is None,
            },
    {
        let ghost m0 = *self;
        proof {
            lemma_find_idx(self.spec_containers(), container_id);
        }
        match find_container(&self.containers, container_id) {
            None => None,
            Some(i) => {
                let entry = vec_index_mut(&mut self.containers, i);
                let rp = entry.1.read_page_from_file(page_id);
                proof {
                    lemma_others_same_lookup(m0, *self, container_id);
                    assert(self.spec_container(container_id) == self.spec_containers()[i as int].1);
                }
                match rp {
                    Ok(p) => Some(p),
                    Err(_) => None,
                }
            },
        }
    }

    /// Write one page into a container's heap file.  Fails with
    /// `ContainerNotFound`, changing nothing, if the container is not
    /// mapped.
    pub fn write_page(
        &mut self,
        container_id: ContainerId,
        page: Page,
        _tid: TransactionId,
    ) -> (r: Result<(), StorageError>)
        requires
            old(self).wf(),
            page.wf(),
            page@.page_id < PageId::MAX,
        ensures
            final(self).wf(),
            final(self).spec_storage_path() == old(self).spec_storage_path(),
            final(self).spec_is_temp() == old(self).spec_is_temp(),
            !old(self).spec_has_container(container_id) ==> r == Err::<(), StorageError>(
                StorageError::ContainerNotFound,
            ) && *final(self) == *old(self),
            old(self).spec_has_container(container_id) ==> {
                &&& r is Ok
                &&& spec_others_same(*old(self), *final(self), container_id)
                &&& spec_wrote(
                    old(self).spec_container(container_id),
                    final(self).spec_container(container_id),
                    page@,
                )
            },
    {
        let ghost m0 = *self;
        proof {
            lemma_find_idx(self.spec_containers(), container_id);
        }
        match find_container(&self.containers, container_id) {
            None => Err(StorageError::ContainerNotFound),
            Some(i) => {
                let entry = vec_index_mut(&mut self.containers, i);
                let wr = entry.1.write_page_to_file(page);
                proof {
                    lemma_others_same_lookup(m0, *self, container_id);
                    assert(self.spec_container(container_id) == self.spec_containers()[i as int].1);
                }
                match wr {
                    Ok(()) => Ok(()),
                    Err(e) => {
                        proof {
                            assert(false);
                        }
                        Err(e)
                    },
                }
            },
        }
    }

    /// Insert `value` into the first page of the container that has room,
    /// or into a freshly allocated page when none has; write the mutated
    /// page back; and return the stored value's id.
    ///
    /// Values longer than `MAX_VALUE_SIZE` can fit no page and are rejected
    /// with `ValueTooLarge` before any state change; an unmapped container
    /// id is rejected with `ContainerNotFound`; and a block that does not
    /// parse stops the scan with `CorruptPage`, changing nothing.
    #[verifier::loop_isolation(false)]
    pub fn insert_value(
        &mut self,
        container_id: ContainerId,
        value: Vec<u8>,
        _tid: TransactionId,
    ) -> (r: Result<ValueId, StorageError>)
        requires
            old(self).wf(),
            old(self).spec_has_container(container_id) ==> old(self).spec_container(
                container_id,
            ).spec_num_pages() < PageId::MAX,
        ensures
            final(self).wf(),
            final(self).spec_storage_path() == old(self).spec_storage_path(),
            final(self).spec_is_temp() == old(self).spec_is_temp(),
            value@.len() > MAX_VALUE_SIZE ==> r == Err::<ValueId, StorageError>(
                StorageError::ValueTooLarge,
            ) && *final(self) == *old(self),
            value@.len() <= MAX_VALUE_SIZE && !old(self).spec_has_container(container_id) ==> r
                == Err::<ValueId, StorageError>(StorageError::ContainerNotFound) && *final(self)
                == *old(self),
            value@.len() <= MAX_VALUE_SIZE && old(self).spec_has_container(container_id) ==> {
                &&& spec_others_same(*old(self), *final(self), container_id)
                &&& match r {
                    Ok(vid) => {
                        &&& vid.container_id == container_id
                        &&& vid.page_id is Some
                        &&& vid.slot_id is Some
                        &&& {
                            let pid = vid.page_id->Some_0;
                            let sid = vid.slot_id->Some_0;
                            let hf1 = old(self).spec_container(container_id);
                            let hf2 = final(self).spec_container(container_id);
                            let pm = spec_probe_page(hf1, pid);
                            &&& pid as int <= hf1.spec_num_pages() as int
                            &&& spec_scanned_full(hf1, pid as int, value@.len() as int)
                            &&& ((pid as int) < hf1.spec_num_pages() as int ==> hf1.spec_page_at(
                                pid as int,
                            ) is Some)
                            &&& spec_add(pm, value@) is Some
                            &&& spec_add(pm, value@)->Some_0.1 == sid
                            &&& spec_wrote(hf1, hf2, spec_add(pm, value@)->Some_0.0)
                        }
                    },
                    Err(e) => {
                        &&& e == StorageError::CorruptPage
                        &&& spec_same_store(
                            final(self).spec_container(container_id),
                            old(self).spec_container(container_id),
                        )
                        &&& exists|pid: int|
                            0 <= pid < old(self).spec_container(container_id).spec_num_pages()
                                && #[trigger] spec_scanned_full(
                                old(self).spec_container(container_id),
                                pid,
                                value@.len() as int,
                            ) && old(self).spec_container(container_id).spec_page_at(pid) is None
                    },
                }
            },
    {
        if value.len() > MAX_VALUE_SIZE {
            return Err(StorageError::ValueTooLarge);
        }
        let ghost m0 = *self;
        proof {
            lemma_find_idx(self.spec_containers(), container_id);
        }
        let i = match find_container(&self.containers, container_id) {
            None => {
                return Err(StorageError::ContainerNotFound);
            },
            Some(i) => i,
        };
        let ghost hf1 = m0.spec_container(container_id);
        let num = self.containers[i].1.num_pages();
        let mut pid: PageId = 0;
        while pid < num
            invariant
                pid <= num,
                num == hf1.spec_num_pages(),
                self.wf(),
                spec_others_same(m0, *self, container_id),
                self.spec_containers()[i as int].0 == container_id,
                spec_same_store(self.spec_containers()[i as int].1, hf1),
                self.spec_storage_path() == m0.spec_storage_path(),
                self.spec_is_temp() == m0.spec_is_temp(),
                spec_scanned_full(hf1, pid as int, value@.len() as int),
            decreases num - pid,
        {
            let entry = vec_index_mut(&mut self.containers, i);
            proof {
                assert(entry.1.spec_page_at(pid as int) == hf1.spec_page_at(pid as int));
            }
            let rp = entry.1.read_page_from_file(pid);
            match rp {
                Err(_) => {
                    proof {
                        lemma_others_same_lookup(m0, *self, container_id);
                        assert(self.spec_container(container_id)
                            == self.spec_containers()[i as int].1);
                        assert(hf1.spec_page_at(pid as int) is None);
                        assert(spec_scanned_full(hf1, pid as int, value@.len() as int));
                    }
                    return Err(StorageError::CorruptPage);
                },
                Ok(mut page) => {
                    let ghost pm = page@;
                    match page.add_value(value.as_slice()) {
                        Some(sid) => {
                            proof {
                                crate::page::lemma_add_props(pm, value@);
                                assert(page@.page_id == pm.page_id == pid);
                            }
                            let entry2 = vec_index_mut(&mut self.containers, i);
                            proof {
                                assert(spec_same_store(entry2.1, hf1));
                            }
                            let wr = entry2.1.write_page_to_file(page);
                            proof {
                                lemma_others_same_lookup(m0, *self, container_id);
                                assert(self.spec_container(container_id)
                                    == self.spec_containers()[i as int].1);
                                assert(spec_wrote(hf1, self.spec_container(container_id), page@));
                            }
                            return Ok(
                                ValueId {
                                    container_id,
                                    page_id: Some(pid),
                                    slot_id: Some(sid),
                                },
                            );
                        },
                        None => {
                            proof {
                                assert(!spec_can_add(pm, value@.len() as int));
                            }
                        },
                    }
                },
            }
            pid = pid + 1;
        }
        // No existing page has room: allocate a fresh page at the end.
        let mut page = Page::new(num);
        let sid = match page.add_value(value.as_slice()) {
            Some(sid) => sid,
            None => {
                proof {
                    assert(spec_can_add(spec_empty_page(num), value@.len() as int));
                    assert(false);
                }
                0
            },
        };
        proof {
            crate::page::lemma_add_props(spec_empty_page(num), value@);
            assert(page@.page_id == num);
        }
        let entry = vec_index_mut(&mut self.containers, i);
        proof {
            assert(spec_same_store(entry.1, hf1));
        }
        let wr = entry.1.write_page_to_file(page);
        proof {
            lemma_others_same_lookup(m0, *self, container_id);
            assert(self.spec_container(container_id) == self.spec_containers()[i as int].1);
            assert(spec_wrote(hf1, self.spec_container(container_id), page@));
        }
        Ok(ValueId { container_id, page_id: Some(num), slot_id: Some(sid) })
    }
}

impl StorageManager {
    /// Whether `id` names a mapped container, an existing page and an
    /// allocated slot, with the page's block parsing.
    pub open spec fn spec_resolves_live(&self, id: ValueId) -> bool {
        &&& self.spec_has_container(id.container_id)
        &&& id.page_id is Some
        &&& id.slot_id is Some
        &&& (id.page_id->Some_0 as int) < self.spec_container(id.container_id).spec_num_pages()
        &&& self.spec_container(id.container_id).spec_page_at(id.page_id->Some_0 as int) is Some
        &&& spec_live(
            self.spec_container(id.container_id).spec_page_at(id.page_id->Some_0 as int)->Some_0,
            id.slot_id->Some_0,
        )
    }

    /// Apply `insert_value` to each element in input order; the returned
    /// ids match the input order.  All sizes are validated up front, so a
    /// too-large element rejects the whole batch before any state change.
    #[verifier::loop_isolation(false)]
    pub fn insert_values(
        &mut self,
        container_id: ContainerId,
        values: Vec<Vec<u8>>,
        tid: TransactionId,
    ) -> (r: Result<Vec<ValueId>, StorageError>)
        requires
            old(self).wf(),
            old(self).spec_has_container(container_id) ==> old(self).spec_container(
                container_id,
            ).spec_num_pages() as int + values@.len() <= PageId::MAX as int,
        ensures
            final(self).wf(),
            final(self).spec_storage_path() == old(self).spec_storage_path(),
            final(self).spec_is_temp() == old(self).spec_is_temp(),
            (exists|k: int|
                0 <= k < values@.len() && (#[trigger] values@[k])@.len() > MAX_VALUE_SIZE) ==> r
                == Err::<Vec<ValueId>, StorageError>(StorageError::ValueTooLarge) && *final(self)
                == *old(self),
            (forall|k: int|
                0 <= k < values@.len() ==> (#[trigger] values@[k])@.len() <= MAX_VALUE_SIZE)
                && !old(self).spec_has_container(container_id) ==> r == Err::<
                Vec<ValueId>,
                StorageError,
            >(StorageError::ContainerNotFound) && *final(self) == *old(self),
            (forall|k: int|
                0 <= k < values@.len() ==> (#[trigger] values@[k])@.len() <= MAX_VALUE_SIZE)
                && old(self).spec_has_container(container_id) ==> {
                &&& spec_others_same(*old(self), *final(self), container_id)
                &&& match r {
                    Ok(ids) => {
                        &&& ids@.len() == values@.len()
                        &&& forall|k: int|
                            0 <= k < ids@.len() ==> (#[trigger] ids@[k]).container_id
                                == container_id && ids@[k].page_id is Some && ids@[k].slot_id
                                is Some
                        &&& forall|k: int|
                            0 <= k < ids@.len() ==> final(self).spec_resolves_live(
                                #[trigger] ids@[k],
                            ) && spec_get(
                                final(self).spec_container(container_id).spec_page_at(
                                    ids@[k].page_id->Some_0 as int,
                                )->Some_0,
                                ids@[k].slot_id->Some_0,
                            ) == Some(values@[k]@)
                    },
                    Err(e) => e == StorageError::CorruptPage && exists|q: int|
                        0 <= q < old(self).spec_container(container_id).spec_num_pages()
                            && (#[trigger] old(self).spec_container(container_id).spec_page_at(q))
                            is None,
                }
            },
    {
        let ghost m0 = *self;
        let mut k: usize = 0;
        while k < values.len()
            invariant
                k <= values@.len(),
                forall|j: int| 0 <= j < k ==> (#[trigger] values@[j])@.len() <= MAX_VALUE_SIZE,
            decreases values@.len() - k,
        {
            if values[k].len() > MAX_VALUE_SIZE {
                return Err(StorageError::ValueTooLarge);
            }
            k = k + 1;
        }
        proof {
            lemma_find_idx(self.spec_containers(), container_id);
        }
        if find_container(&self.containers, container_id).is_none() {
            return Err(StorageError::ContainerNotFound);
        }
        let mut ids: Vec<ValueId> = Vec::new();
        let mut k: usize = 0;
        while k < values.len()
            invariant
                k <= values@.len(),
                ids@.len() == k,
                forall|j: int|
                    0 <= j < k ==> (#[trigger] ids@[j]).container_id == container_id
                        && ids@[j].page_id is Some && ids@[j].slot_id is Some,
                self.wf(),
                spec_others_same(m0, *self, container_id),
                self.spec_storage_path() == m0.spec_storage_path(),
                self.spec_is_temp() == m0.spec_is_temp(),
                self.spec_has_container(container_id),
                self.spec_container(container_id).spec_num_pages() as int + (values@.len() - k)
                    <= PageId::MAX as int,
                forall|j: int|
                    0 <= j < k ==> self.spec_resolves_live(#[trigger] ids@[j]) && spec_get(
                        self.spec_container(container_id).spec_page_at(
                            ids@[j].page_id->Some_0 as int,
                        )->Some_0,
                        ids@[j].slot_id->Some_0,
                    ) == Some(values@[j]@),
                forall|q: int|
                    0 <= q < self.spec_container(container_id).spec_num_pages() && (
                    #[trigger] self.spec_container(container_id).spec_page_at(q)) is None ==> 0
                        <= q < m0.spec_container(container_id).spec_num_pages()
                        && m0.spec_container(container_id).spec_page_at(q) is None,
            decreases values@.len() - k,
        {
            let ghost mid = *self;
            let v = values[k].clone();
            proof {
                assert forall|j: int| 0 <= j < v@.len() implies v@[j] == values[k as int]@[j] by {
                    assert(vstd::pervasive::cloned::<u8>(values[k as int]@[j], v@[j]));
                }
                assert(v@ =~= values[k as int]@);
            }
            match self.insert_value(container_id, v, tid) {
                Ok(vid) => {
                    proof {
                        lemma_others_same_lookup(mid, *self, container_id);
                        lemma_others_same_lookup(m0, mid, container_id);
                        lemma_batch_insert_step(
                            mid,
                            *self,
                            container_id,
                            ids@,
                            Seq::new(k as nat, |j: int| values@[j]@),
                            vid,
                            v@,
                        );
                    }
                    ids.push(vid);
                },
                Err(e) => {
                    proof {
                        lemma_others_same_lookup(mid, *self, container_id);
                        lemma_others_same_lookup(m0, mid, container_id);
                        assert(e == StorageError::CorruptPage);
                        let q = choose|q: int|
                            0 <= q < mid.spec_container(container_id).spec_num_pages()
                                && #[trigger] spec_scanned_full(
                                mid.spec_container(container_id),
                                q,
                                v@.len() as int,
                            ) && mid.spec_container(container_id).spec_page_at(q) is None;
                        assert(m0.spec_container(container_id).spec_page_at(q) is None);
                    }
                    return Err(StorageError::CorruptPage);
                },
            }
            k = k + 1;
        }
        Ok(ids)
    }

    /// Read the bytes of one stored value.  Fails with `ContainerNotFound`
    /// for an unmapped container, `CorruptPage` when the page's block does
    /// not parse, and `InvalidValueId` when the page or slot does not
    /// resolve to a live value.
    pub fn get_value(
        &mut self,
        id: ValueId,
        _tid: TransactionId,
        _perm: Permissions,
    ) -> (r: Result<Vec<u8>, StorageError>)
        requires
            old(self).wf(),
        ensures
            final(self).wf(),
            final(self).spec_storage_path() == old(self).spec_storage_path(),
            final(self).spec_is_temp() == old(self).spec_is_temp(),
            spec_others_same(*old(self), *final(self), id.container_id),
            old(self).spec_has_container(id.container_id) ==> spec_same_store(
                final(self).spec_container(id.container_id),
                old(self).spec_container(id.container_id),
            ),
            match r {
                Ok(v) => old(self).spec_resolves_live(id) && spec_get(
                    old(self).spec_container(id.container_id).spec_page_at(
                        id.page_id->Some_0 as int,
                    )->Some_0,
                    id.slot_id->Some_0,
                ) == Some(v@),
                Err(e) => {
                    &&& !old(self).spec_resolves_live(id)
                    &&& (e == StorageError::ContainerNotFound <==> !old(self).spec_has_container(
                        id.container_id,
                    ))
                    &&& (e == StorageError::CorruptPage <==> old(self).spec_has_container(
                        id.container_id,
                    ) && id.page_id is Some && (id.page_id->Some_0 as int) < old(
                        self,
                    ).spec_container(id.container_id).spec_num_pages() && old(
                        self,
                    ).spec_container(id.container_id).spec_page_at(id.page_id->Some_0 as int)
                        is None)
                    &&& (e == StorageError::ContainerNotFound || e == StorageError::CorruptPage
                        || e == StorageError::InvalidValueId)
                },
            },
    {
        let ghost m0 = *self;
        proof {
            lemma_find_idx(self.spec_containers(), id.container_id);
        }
        match find_container(&self.containers, id.container_id) {
            None => Err(StorageError::ContainerNotFound),
            Some(i) => {
                let pid = match id.page_id {
                    Some(pid) => pid,
                    None => {
                        return Err(StorageError::InvalidValueId);
                    },
                };
                let entry = vec_index_mut(&mut self.containers, i);
                let rp = entry.1.read_page_from_file(pid);
                proof {
                    lemma_others_same_lookup(m0, *self, id.container_id);
                    assert(self.spec_container(id.container_id)
                        == self.spec_containers()[i as int].1);
                }
                match rp {
                    Err(StorageError::CorruptPage) => Err(StorageError::CorruptPage),
                    Err(_) => Err(StorageError::InvalidValueId),
                    Ok(page) => {
                        let sid = match id.slot_id {
                            Some(sid) => sid,
                            None => {
                                return Err(StorageError::InvalidValueId);
                            },
                        };
                        match page.get_value(sid) {
                            Some(v) => Ok(v),
                            None => Err(StorageError::InvalidValueId),
                        }
                    },
                }
            },
        }
    }

    /// Delete one stored value: mark its slot freed on its page and write
    /// the page back.  Deletion is idempotent by design: a missing
    /// container, page or slot, a block that does not parse, or an already
    /// freed slot all return `Ok` and change no stored bytes.
    pub fn delete_value(&mut self, id: ValueId, _tid: TransactionId) -> (r: Result<
        (),
        StorageError,
    >)
        requires
            old(self).wf(),
        ensures
            final(self).wf(),
            r is Ok,
            final(self).spec_storage_path() == old(self).spec_storage_path(),
            final(self).spec_is_temp() == old(self).spec_is_temp(),
            spec_others_same(*old(self), *final(self), id.container_id),
            old(self).spec_resolves_live(id) && spec_delete_ok(
                old(self).spec_container(id.container_id).spec_page_at(
                    id.page_id->Some_0 as int,
                )->Some_0,
                id.slot_id->Some_0,
            ) ==> spec_wrote(
                old(self).spec_container(id.container_id),
                final(self).spec_container(id.container_id),
                spec_delete(
                    old(self).spec_container(id.container_id).spec_page_at(
                        id.page_id->Some_0 as int,
                    )->Some_0,
                    id.slot_id->Some_0,
                ),
            ),
            !(old(self).spec_resolves_live(id) && spec_delete_ok(
                old(self).spec_container(id.container_id).spec_page_at(
                    id.page_id->Some_0 as int,
                )->Some_0,
                id.slot_id->Some_0,
            )) && old(self).spec_has_container(id.container_id) ==> spec_same_store(
                final(self).spec_container(id.container_id),
                old(self).spec_container(id.container_id),
            ),
    {
        let ghost m0 = *self;
        proof {
            lemma_find_idx(self.spec_containers(), id.container_id);
        }
        match find_container(&self.containers, id.container_id) {
            None => Ok(()),
            Some(i) => {
                let pid = match id.page_id {
                    Some(pid) => pid,
                    None => {
                        return Ok(());
                    },
                };
                let entry = vec_index_mut(&mut self.containers, i);
                let rp = entry.1.read_page_from_file(pid);
                proof {
                    lemma_others_same_lookup(m0, *self, id.container_id);
                    assert(self.spec_container(id.container_id)
                        == self.spec_containers()[i as int].1);
                }
                match rp {
                    Err(_) => Ok(()),
                    Ok(mut page) => {
                        let sid = match id.slot_id {
                            Some(sid) => sid,
                            None => {
                                return Ok(());
                            },
                        };
                        if page.get_value(sid).is_none() {
                            // Out of range or already freed: nothing to do.
                            return Ok(());
                        }
                        let ghost pm = page@;
                        match page.delete_value(sid) {
                            None => Ok(()),
                            Some(()) => {
                                let ghost mid = *self;
                                proof {
                                    assert(page@.page_id == pm.page_id == pid);
                                }
                                let entry2 = vec_index_mut(&mut self.containers, i);
                                let wr = entry2.1.write_page_to_file(page);
                                proof {
                                    lemma_others_same_lookup(mid, *self, id.container_id);
                                    lemma_others_same_lookup(m0, mid, id.container_id);
                                    assert(self.spec_container(id.container_id)
                                        == self.spec_containers()[i as int].1);
                                }
                                Ok(())
                            },
                        }
                    },
                }
            },
        }
    }

    /// Update one stored value in place when the new bytes fit on its page
    /// (the slot id may change within the page); otherwise free the old
    /// slot and re-insert the bytes through the normal first-fit path, on a
    /// possibly different page.  Callers compare the returned id against
    /// the one supplied to detect relocation.
    ///
    /// A payload that can fit no page is rejected with `ValueTooLarge`, as
    /// is the rare page whose free gap cannot even take the two bytes of
    /// freed-slot bookkeeping the update needs.  An id that does not name a
    /// live value is rejected with `InvalidValueId`, an unmapped container
    /// with `ContainerNotFound`, and a block that does not parse with
    /// `CorruptPage`; a failed update changes nothing.
    #[verifier::rlimit(30)]
    pub fn update_value(
        &mut self,
        value: Vec<u8>,
        id: ValueId,
        tid: TransactionId,
    ) -> (r: Result<ValueId, StorageError>)
        requires
            old(self).wf(),
            old(self).spec_has_container(id.container_id) ==> old(self).spec_container(
                id.container_id,
            ).spec_num_pages() < PageId::MAX,
        ensures
            final(self).wf(),
            final(self).spec_storage_path() == old(self).spec_storage_path(),
            final(self).spec_is_temp() == old(self).spec_is_temp(),
            spec_others_same(*old(self), *final(self), id.container_id),
            value@.len() > MAX_VALUE_SIZE ==> r == Err::<ValueId, StorageError>(
                StorageError::ValueTooLarge,
            ) && *final(self) == *old(self),
            value@.len() <= MAX_VALUE_SIZE && !old(self).spec_has_container(id.container_id)
                ==> r == Err::<ValueId, StorageError>(StorageError::ContainerNotFound)
                    && *final(self) == *old(self),
            value@.len() <= MAX_VALUE_SIZE && old(self).spec_has_container(id.container_id)
                && !old(self).spec_resolves_live(id) ==> {
                &&& spec_same_store(
                    final(self).spec_container(id.container_id),
                    old(self).spec_container(id.container_id),
                )
                &&& (r == Err::<ValueId, StorageError>(StorageError::CorruptPage) <==> id.page_id
                    is Some && (id.page_id->Some_0 as int) < old(self).spec_container(
                    id.container_id,
                ).spec_num_pages() && old(self).spec_container(id.container_id).spec_page_at(
                    id.page_id->Some_0 as int,
                ) is None)
                &&& (r is Err)
                &&& (r == Err::<ValueId, StorageError>(StorageError::InvalidValueId) || r == Err::<
                    ValueId,
                    StorageError,
                >(StorageError::CorruptPage))
            },
            value@.len() <= MAX_VALUE_SIZE && old(self).spec_resolves_live(id) ==> {
                let pm = old(self).spec_container(id.container_id).spec_page_at(
                    id.page_id->Some_0 as int,
                )->Some_0;
                let sid = id.slot_id->Some_0;
                &&& (!spec_delete_ok(pm, sid) ==> r == Err::<ValueId, StorageError>(
                    StorageError::ValueTooLarge,
                ) && spec_same_store(
                    final(self).spec_container(id.container_id),
                    old(self).spec_container(id.container_id),
                ))
                &&& (spec_delete_ok(pm, sid) && spec_add(spec_delete(pm, sid), value@) is Some
                    ==> {
                    let pm2 = spec_add(spec_delete(pm, sid), value@)->Some_0.0;
                    let sid2 = spec_add(spec_delete(pm, sid), value@)->Some_0.1;
                    &&& r is Ok
                    &&& r->Ok_0.container_id == id.container_id
                    &&& r->Ok_0.page_id == id.page_id
                    &&& r->Ok_0.slot_id == Some(sid2)
                    &&& spec_wrote(
                        old(self).spec_container(id.container_id),
                        final(self).spec_container(id.container_id),
                        pm2,
                    )
                })
                &&& (spec_delete_ok(pm, sid) && spec_add(spec_delete(pm, sid), value@) is None
                    ==> (r is Ok || (r == Err::<ValueId, StorageError>(StorageError::CorruptPage)
                        && exists|q: int|
                        0 <= q < old(self).spec_container(id.container_id).spec_num_pages() && (
                        #[trigger] old(self).spec_container(id.container_id).spec_page_at(q))
                            is None)))
                &&& (r is Ok ==> {
                    let vid2 = r->Ok_0;
                    &&& vid2.container_id == id.container_id
                    &&& vid2.page_id is Some
                    &&& vid2.slot_id is Some
                    &&& final(self).spec_resolves_live(vid2)
                    &&& spec_get(
                        final(self).spec_container(id.container_id).spec_page_at(
                            vid2.page_id->Some_0 as int,
                        )->Some_0,
                        vid2.slot_id->Some_0,
                    ) == Some(value@)
                    &&& ((vid2.page_id->Some_0 != id.page_id->Some_0 || vid2.slot_id->Some_0
                        != sid) ==> final(self).spec_container(id.container_id).spec_page_at(
                        id.page_id->Some_0 as int,
                    ) is Some && spec_get(
                        final(self).spec_container(id.container_id).spec_page_at(
                            id.page_id->Some_0 as int,
                        )->Some_0,
                        sid,
                    ) is None)
                })
            },
    {
        if value.len() > MAX_VALUE_SIZE {
            return Err(StorageError::ValueTooLarge);
        }
        let ghost m0 = *self;
        proof {
            lemma_find_idx(self.spec_containers(), id.container_id);
        }
        let i = match find_container(&self.containers, id.container_id) {
            None => {
                return Err(StorageError::ContainerNotFound);
            },
            Some(i) => i,
        };
        let pid = match id.page_id {
            Some(pid) => pid,
            None => {
                return Err(StorageError::InvalidValueId);
            },
        };
        let ghost hf1 = m0.spec_container(id.container_id);
        let entry = vec_index_mut(&mut self.containers, i);
        let rp = entry.1.read_page_from_file(pid);
        proof {
            lemma_others_same_lookup(m0, *self, id.container_id);
            assert(self.spec_container(id.container_id) == self.spec_containers()[i as int].1);
        }
        let mut page = match rp {
            Err(StorageError::CorruptPage) => {
                return Err(StorageError::CorruptPage);
            },
            Err(_) => {
                return Err(StorageError::InvalidValueId);
            },
            Ok(page) => page,
        };
        let sid = match id.slot_id {
            Some(sid) => sid,
            None => {
                return Err(StorageError::InvalidValueId);
            },
        };
        if page.get_value(sid).is_none() {
            return Err(StorageError::InvalidValueId);
        }
        let ghost pm = page@;
        if page.delete_value(sid).is_none() {
            return Err(StorageError::ValueTooLarge);
        }
        let ghost pmd = page@;
        match page.add_value(value.as_slice()) {
            Some(sid2) => {
                proof {
                    crate::page::lemma_delete_wf(pm, sid);
                    crate::page::lemma_add_props(pmd, value@);
                    crate::heapfile::lemma_write_read_round_trip(page@);
                    assert(page@.page_id == pm.page_id == pid);
                }
                let ghost mid = *self;
                let entry2 = vec_index_mut(&mut self.containers, i);
                let wr = entry2.1.write_page_to_file(page);
                proof {
                    lemma_others_same_lookup(mid, *self, id.container_id);
                    lemma_others_same_lookup(m0, mid, id.container_id);
                    assert(self.spec_container(id.container_id)
                        == self.spec_containers()[i as int].1);
                    let hf2 = self.spec_container(id.container_id);
                    let pm2 = spec_add(pmd, value@)->Some_0.0;
                    assert(hf2.spec_page_at(pid as int) == crate::codec::spec_parse(
                        crate::codec::spec_page_bytes(pm2),
                    ));
                    assert(spec_get(hf2.spec_page_at(pid as int)->Some_0, sid2) == spec_get(
                        pm2,
                        sid2,
                    ));
                    if sid2 != sid {
                        assert(spec_get(pm2, sid) == spec_get(pmd, sid));
                    }
                }
                Ok(ValueId { container_id: id.container_id, page_id: Some(pid), slot_id: Some(sid2) })
            },
            None => {
                // The new bytes do not fit on this page: persist the
                // deletion, then re-insert through the first-fit path.
                proof {
                    crate::heapfile::lemma_write_read_round_trip(page@);
                }
                let ghost mid = *self;
                let entry2 = vec_index_mut(&mut self.containers, i);
                let wr = entry2.1.write_page_to_file(page);
                proof {
                    lemma_others_same_lookup(mid, *self, id.container_id);
                    lemma_others_same_lookup(m0, mid, id.container_id);
                    assert(self.spec_container(id.container_id)
                        == self.spec_containers()[i as int].1);
                }
                let ghost m1 = *self;
                let r2 = self.insert_value(id.container_id, value, tid);
                proof {
                    lemma_others_same_lookup(m1, *self, id.container_id);
                }
                match r2 {
                    Err(_) => {
                        proof {
                            crate::heapfile::lemma_write_read_round_trip(pmd);
                            let q = choose|q: int|
                                0 <= q < m1.spec_container(id.container_id).spec_num_pages()
                                    && #[trigger] spec_scanned_full(
                                    m1.spec_container(id.container_id),
                                    q,
                                    value@.len() as int,
                                ) && m1.spec_container(id.container_id).spec_page_at(q) is None;
                            assert(q != pid);
                            assert(m1.spec_container(id.container_id).spec_block(q)
                                == m0.spec_container(id.container_id).spec_block(q));
                            assert(m0.spec_container(id.container_id).spec_page_at(q) is None);
                        }
                        Err(StorageError::CorruptPage)
                    },
                    Ok(vid2) => {
                        proof {
                            crate::page::lemma_delete_wf(pm, sid);
                            lemma_update_relocation(m0, m1, *self, id, pm, pmd, vid2, value@);
                        }
                        Ok(vid2)
                    },
                }
            },
        }
    }
}

/// The live values stored in block `pid`, in slot order; a block that does
/// not parse (such as a padded gap) holds none.
pub open spec fn spec_page_values_at(hf: HeapFile, pid: int) -> Seq<Seq<u8>> {
    match hf.spec_page_at(pid) {
        Some(pm) => crate::page::spec_page_values(pm),
        None => Seq::empty(),
    }
}

/// The live values of blocks `0..n`, page by page.
pub open spec fn spec_values_up_to(hf: HeapFile, n: int) -> Seq<Seq<u8>>
    decreases n
        when n >= 0
{
    if n <= 0 {
        Seq::empty()
    } else {
        spec_values_up_to(hf, n - 1) + spec_page_values_at(hf, n - 1)
    }
}

/// Every live value of a container, in ascending page order and, within a
/// page, ascending slot order.
pub open spec fn spec_container_values(hf: HeapFile) -> Seq<Seq<u8>> {
    spec_values_up_to(hf, hf.spec_num_pages() as int)
}

/// Iterator over every live value of one container, produced from the
/// container's state at the time `get_iterator` was called.
pub struct HeapFileIterator {
    values: Vec<Vec<u8>>,
    index: usize,
}

impl HeapFileIterator {
    /// All values of the scan, in order.
    pub closed spec fn spec_values(&self) -> Seq<Seq<u8>> {
        self.values.deep_view()
    }

    /// How many values have been yielded already.
    pub closed spec fn spec_index(&self) -> int {
        self.index as int
    }

    pub open spec fn wf(&self) -> bool {
        0 <= self.spec_index() <= self.spec_values().len()
    }

    /// The values the iterator has yet to yield.
    pub open spec fn remaining(&self) -> Seq<Seq<u8>> {
        self.spec_values().skip(self.spec_index())
    }

    /// Yield a copy of the next value, or `None` at the end of the scan.
    pub fn next(&mut self) -> (r: Option<Vec<u8>>)
        requires
            old(self).wf(),
        ensures
            final(self).wf(),
            match r {
                Some(v) => old(self).remaining().len() > 0 && v@ == old(self).remaining()[0]
                    && final(self).remaining() == old(self).remaining().drop_first(),
                None => old(self).remaining().len() == 0 && *final(self) == *old(self),
            },
    {
        if self.index >= self.values.len() {
            return None;
        }
        let src = &self.values[self.index];
        let n = src.len();
        let mut out: Vec<u8> = Vec::new();
        let mut k: usize = 0;
        while k < n
            invariant
                k <= n,
                n == src@.len(),
                out@.len() == k,
                forall|j: int| 0 <= j < k ==> out@[j] == src@[j],
            decreases n - k,
        {
            out.push(src[k]);
            k = k + 1;
        }
        proof {
            assert(out@ =~= src@);
            assert(self.spec_values()[self.index as int] == src.deep_view());
            assert(src.deep_view() =~= src@);
        }
        self.index = self.index + 1;
        proof {
            assert(final(self).remaining() =~= old(self).remaining().drop_first());
        }
        Some(out)
    }
}

impl StorageManager {
    /// Produce an independent, restartable scan over every live value of a
    /// container, enumerating pages in ascending page-id order and, within
    /// each page, slots in ascending slot-id order.  An unmapped container
    /// yields an empty scan, as does every block that does not parse.
    #[verifier::loop_isolation(false)]
    pub fn get_iterator(
        &mut self,
        container_id: ContainerId,
        _tid: TransactionId,
        _perm: Permissions,
    ) -> (it: HeapFileIterator)
        requires
            old(self).wf(),
        ensures
            final(self).wf(),
            final(self).spec_storage_path() == old(self).spec_storage_path(),
            final(self).spec_is_temp() == old(self).spec_is_temp(),
            spec_others_same(*old(self), *final(self), container_id),
            old(self).spec_has_container(container_id) ==> spec_same_store(
                final(self).spec_container(container_id),
                old(self).spec_container(container_id),
            ),
            it.wf(),
            it.spec_index() == 0,
            it.remaining() == if old(self).spec_has_container(container_id) {
                spec_container_values(old(self).spec_container(container_id))
            } else {
                Seq::<Seq<u8>>::empty()
            },
    {
        let ghost m0 = *self;
        proof {
            lemma_find_idx(self.spec_containers(), container_id);
        }
        let mut values: Vec<Vec<u8>> = Vec::new();
        let i = match find_container(&self.containers, container_id) {
            None => {
                let it = HeapFileIterator { values, index: 0 };
                proof {
                    assert(it.remaining() =~= Seq::<Seq<u8>>::empty());
                }
                return it;
            },
            Some(i) => i,
        };
        let ghost hf1 = m0.spec_container(container_id);
        let num = self.containers[i].1.num_pages();
        let mut pid: PageId = 0;
        while pid < num
            invariant
                pid <= num,
                num == hf1.spec_num_pages(),
                self.wf(),
                spec_others_same(m0, *self, container_id),
                self.spec_containers()[i as int].0 == container_id,
                spec_same_store(self.spec_containers()[i as int].1, hf1),
                self.spec_storage_path() == m0.spec_storage_path(),
                self.spec_is_temp() == m0.spec_is_temp(),
                values.deep_view() == spec_values_up_to(hf1, pid as int),
            decreases num - pid,
        {
            let entry = vec_index_mut(&mut self.containers, i);
            proof {
                assert(entry.1.spec_page_at(pid as int) == hf1.spec_page_at(pid as int));
            }
            let rp = entry.1.read_page_from_file(pid);
            match rp {
                Err(_) => {
                    proof {
                        assert(spec_page_values_at(hf1, pid as int) =~= Seq::<Seq<u8>>::empty());
                        assert(values.deep_view() =~= spec_values_up_to(hf1, pid as int + 1));
                    }
                },
                Ok(page) => {
                    let ghost pm = page@;
                    let mut pit = page.into_iter();
                    loop
                        invariant
                            pit.spec_page().wf(),
                            pit.spec_index() >= 0,
                            pit.spec_page()@ == pm,
                            hf1.spec_page_at(pid as int) == Some(pm),
                            values.deep_view() + pit.remaining() == spec_values_up_to(
                                hf1,
                                pid as int,
                            ) + spec_page_values_at(hf1, pid as int),
                        decreases pit.remaining().len(),
                    {
                        let ghost rem0 = pit.remaining();
                        match pit.next() {
                            Some(v) => {
                                let ghost dv0 = values.deep_view();
                                let ghost vsnap = v@;
                                let ghost vdeep = v.deep_view();
                                values.push(v);
                                proof {
                                    assert(vdeep =~= vsnap);
                                    assert(values.deep_view() =~= dv0.push(vsnap));
                                    assert(dv0.push(vsnap) + pit.remaining() =~= dv0 + rem0);
                                }
                            },
                            None => {
                                break ;
                            },
                        }
                    }
                    proof {
                        assert(values.deep_view() =~= spec_values_up_to(hf1, pid as int + 1));
                    }
                },
            }
            pid = pid + 1;
        }
        let it = HeapFileIterator { values, index: 0 };
        proof {
            lemma_others_same_lookup(m0, *self, container_id);
            assert(self.spec_container(container_id) == self.spec_containers()[i as int].1);
            assert(it.remaining() =~= spec_container_values(hf1));
        }
        it
    }
}

/// One step of a batch insert: the freshly returned id reads the inserted
/// bytes, every id returned earlier still reads its own bytes, and no
/// block that parsed has stopped parsing.
proof fn lemma_batch_insert_step(
    m1: StorageManager,
    m2: StorageManager,
    cid: ContainerId,
    ids: Seq<ValueId>,
    vals: Seq<Seq<u8>>,
    vid: ValueId,
    v: Seq<u8>,
)
    requires
        m1.wf(),
        m2.wf(),
        m1.spec_has_container(cid),
        m2.spec_has_container(cid),
        ids.len() == vals.len(),
        forall|j: int|
            0 <= j < ids.len() ==> m1.spec_resolves_live(#[trigger] ids[j]) && spec_get(
                m1.spec_container(cid).spec_page_at(ids[j].page_id->Some_0 as int)->Some_0,
                ids[j].slot_id->Some_0,
            ) == Some(vals[j]) && ids[j].container_id == cid,
        // what insert_value guaranteed
        vid.container_id == cid,
        vid.page_id is Some,
        vid.slot_id is Some,
        (vid.page_id->Some_0 as int) <= m1.spec_container(cid).spec_num_pages() as int,
        (vid.page_id->Some_0 as int) < m1.spec_container(cid).spec_num_pages() as int
            ==> m1.spec_container(cid).spec_page_at(vid.page_id->Some_0 as int) is Some,
        spec_add(spec_probe_page(m1.spec_container(cid), vid.page_id->Some_0), v) is Some,
        spec_add(spec_probe_page(m1.spec_container(cid), vid.page_id->Some_0), v)->Some_0.1
            == vid.slot_id->Some_0,
        spec_wrote(
            m1.spec_container(cid),
            m2.spec_container(cid),
            spec_add(spec_probe_page(m1.spec_container(cid), vid.page_id->Some_0), v)->Some_0.0,
        ),
    ensures
        m2.spec_resolves_live(vid),
        spec_get(
            m2.spec_container(cid).spec_page_at(vid.page_id->Some_0 as int)->Some_0,
            vid.slot_id->Some_0,
        ) == Some(v),
        forall|j: int|
            0 <= j < ids.len() ==> m2.spec_resolves_live(#[trigger] ids[j]) && spec_get(
                m2.spec_container(cid).spec_page_at(ids[j].page_id->Some_0 as int)->Some_0,
                ids[j].slot_id->Some_0,
            ) == Some(vals[j]),
        forall|q: int|
            0 <= q < m2.spec_container(cid).spec_num_pages() && (#[trigger] m2.spec_container(
                cid,
            ).spec_page_at(q)) is None ==> 0 <= q < m1.spec_container(cid).spec_num_pages()
                && m1.spec_container(cid).spec_page_at(q) is None,
{
    let hf1 = m1.spec_container(cid);
    let hf2 = m2.spec_container(cid);
    let pid = vid.page_id->Some_0;
    let sid = vid.slot_id->Some_0;
    proof_container_wf(m1, cid);
    proof_container_wf(m2, cid);
    let pm = spec_probe_page(hf1, pid);
    if (pid as int) < hf1.spec_num_pages() as int {
        assert(crate::page::spec_wf(pm));
        assert(pm.page_id == pid);
    } else {
        assert(crate::page::spec_wf(pm)) by {
            assert(pm.data.len() == PAGE_SIZE);
        }
    }
    crate::page::lemma_add_props(pm, v);
    let pm2 = spec_add(pm, v)->Some_0.0;
    crate::heapfile::lemma_write_read_round_trip(pm2);
    assert(hf2.spec_page_at(pid as int) == crate::codec::spec_parse(
        crate::codec::spec_page_bytes(pm2),
    ));
    assert(spec_get(hf2.spec_page_at(pid as int)->Some_0, sid) == spec_get(pm2, sid));
    assert forall|j: int|
        0 <= j < ids.len() implies m2.spec_resolves_live(#[trigger] ids[j]) && spec_get(
        hf2.spec_page_at(ids[j].page_id->Some_0 as int)->Some_0,
        ids[j].slot_id->Some_0,
    ) == Some(vals[j]) by {
        let pj = ids[j].page_id->Some_0;
        let sj = ids[j].slot_id->Some_0;
        if pj == pid {
            assert(spec_live(pm, sj));
            assert(sj != sid);
            assert(spec_get(pm2, sj) == spec_get(pm, sj));
            assert(spec_get(hf2.spec_page_at(pid as int)->Some_0, sj) == spec_get(pm2, sj));
        } else {
            assert(hf2.spec_block(pj as int) == hf1.spec_block(pj as int));
            assert(hf2.spec_page_at(pj as int) == hf1.spec_page_at(pj as int));
        }
    }
    assert forall|q: int|
        0 <= q < hf2.spec_num_pages() && (#[trigger] hf2.spec_page_at(q)) is None implies 0 <= q
        < hf1.spec_num_pages() && hf1.spec_page_at(q) is None by {
        if q == pid {
            assert(false);
        } else if q < hf1.spec_num_pages() {
            assert(hf2.spec_block(q) == hf1.spec_block(q));
            assert(hf2.spec_page_at(q) == hf1.spec_page_at(q));
        } else {
            assert(false);
        }
    }
}

/// A mapped container's heap file is well formed.
proof fn proof_container_wf(m: StorageManager, cid: ContainerId)
    requires
        m.wf(),
        m.spec_has_container(cid),
    ensures
        m.spec_container(cid).wf(),
{
    lemma_find_idx(m.spec_containers(), cid);
    let i = m.spec_container_idx(cid);
    assert(m.spec_containers()[i].1.wf());
}

/// In the relocation path of an update, the returned id reads the new
/// bytes and the old id's slot reads as freed.
proof fn lemma_update_relocation(
    m0: StorageManager,
    m1: StorageManager,
    m2: StorageManager,
    id: ValueId,
    pm: PageModel,
    pmd: PageModel,
    vid2: ValueId,
    value: Seq<u8>,
)
    requires
        value.len() <= MAX_VALUE_SIZE,
        m0.spec_resolves_live(id),
        crate::page::spec_wf(pm),
        pm == m0.spec_container(id.container_id).spec_page_at(id.page_id->Some_0 as int)->Some_0,
        pmd == spec_delete(pm, id.slot_id->Some_0),
        spec_delete_ok(pm, id.slot_id->Some_0),
        !spec_live(pmd, id.slot_id->Some_0),
        spec_add(pmd, value) is None,
        m1.spec_has_container(id.container_id),
        m2.spec_has_container(id.container_id),
        m2.spec_container_idx(id.container_id) == m1.spec_container_idx(id.container_id),
        m1.wf(),
        m2.wf(),
        spec_wrote(
            m0.spec_container(id.container_id),
            m1.spec_container(id.container_id),
            pmd,
        ),
        pmd.page_id == id.page_id->Some_0,
        // what insert_value guaranteed from m1 to m2
        vid2.container_id == id.container_id,
        vid2.page_id is Some,
        vid2.slot_id is Some,
        (vid2.page_id->Some_0 as int) <= m1.spec_container(id.container_id).spec_num_pages() as int,
        spec_scanned_full(
            m1.spec_container(id.container_id),
            vid2.page_id->Some_0 as int,
            value.len() as int,
        ),
        (vid2.page_id->Some_0 as int) < m1.spec_container(id.container_id).spec_num_pages() as int
            ==> m1.spec_container(id.container_id).spec_page_at(vid2.page_id->Some_0 as int)
            is Some,
        spec_add(
            spec_probe_page(m1.spec_container(id.container_id), vid2.page_id->Some_0),
            value,
        ) is Some,
        spec_add(
            spec_probe_page(m1.spec_container(id.container_id), vid2.page_id->Some_0),
            value,
        )->Some_0.1 == vid2.slot_id->Some_0,
        spec_wrote(
            m1.spec_container(id.container_id),
            m2.spec_container(id.container_id),
            spec_add(
                spec_probe_page(m1.spec_container(id.container_id), vid2.page_id->Some_0),
                value,
            )->Some_0.0,
        ),
    ensures
        m2.spec_resolves_live(vid2),
        spec_get(
            m2.spec_container(id.container_id).spec_page_at(vid2.page_id->Some_0 as int)->Some_0,
            vid2.slot_id->Some_0,
        ) == Some(value),
        (vid2.page_id->Some_0 != id.page_id->Some_0 || vid2.slot_id->Some_0 != id.slot_id->Some_0)
            ==> m2.spec_container(id.container_id).spec_page_at(id.page_id->Some_0 as int)
            is Some && spec_get(
            m2.spec_container(id.container_id).spec_page_at(id.page_id->Some_0 as int)->Some_0,
            id.slot_id->Some_0,
        ) is None,
{
    let cid = id.container_id;
    let pid = id.page_id->Some_0;
    let sid = id.slot_id->Some_0;
    let pid2 = vid2.page_id->Some_0;
    let sid2 = vid2.slot_id->Some_0;
    let hf1 = m1.spec_container(cid);
    let hf2 = m2.spec_container(cid);
    proof_container_wf(m1, cid);
    proof_container_wf(m2, cid);
    crate::page::lemma_delete_wf(pm, sid);
    let pmb = spec_probe_page(hf1, pid2);
    if (pid2 as int) < hf1.spec_num_pages() as int {
        assert(crate::page::spec_wf(pmb));
        assert(pmb.page_id == pid2);
    } else {
        assert(crate::page::spec_wf(pmb)) by {
            assert(pmb.data.len() == PAGE_SIZE);
        }
    }
    crate::page::lemma_add_props(pmb, value);
    let pm2 = spec_add(pmb, value)->Some_0.0;
    crate::heapfile::lemma_write_read_round_trip(pm2);
    assert(hf2.spec_page_at(pid2 as int) == crate::codec::spec_parse(
        crate::codec::spec_page_bytes(pm2),
    ));
    assert(spec_get(hf2.spec_page_at(pid2 as int)->Some_0, sid2) == spec_get(pm2, sid2));
    assert(spec_get(pm2, sid2) == Some(value));
    if pid2 != pid || sid2 != sid {
        // The old slot's page: either the page the new bytes landed on
        // (with the old slot left freed), or the page as the deletion
        // left it.
        if pid2 == pid {
            crate::heapfile::lemma_write_read_round_trip(pmd);
            assert(hf1.spec_page_at(pid as int) == crate::codec::spec_parse(
                crate::codec::spec_page_bytes(pmd),
            ));
            assert(spec_get(pmb, sid) == spec_get(pmd, sid));
            assert(spec_get(pm2, sid) == spec_get(pmb, sid));
            assert(spec_get(hf2.spec_page_at(pid as int)->Some_0, sid) == spec_get(pm2, sid));
        } else {
            assert(hf2.spec_block(pid as int) == hf1.spec_block(pid as int));
            crate::heapfile::lemma_write_read_round_trip(pmd);
            assert(hf1.spec_page_at(pid as int) == crate::codec::spec_parse(
                crate::codec::spec_page_bytes(pmd),
            ));
            assert(spec_get(hf2.spec_page_at(pid as int)->Some_0, sid) == spec_get(pmd, sid));
        }
    }
}

/// Pushing an entry with a fresh id appends it to the id lookup.
proof fn lemma_push_find(s: Seq<(ContainerId, HeapFile)>, cid: ContainerId, hf: HeapFile)
    requires
        spec_find_idx(s, cid) is None,
    ensures
        spec_find_idx(s.push((cid, hf)), cid) == Some(s.len() as int),
        forall|c: ContainerId|
            c != cid ==> #[trigger] spec_find_idx(s.push((cid, hf)), c) == spec_find_idx(s, c),
    decreases s.len(),
{
    let t = s.push((cid, hf));
    if s.len() == 0 {
        assert(t[0].0 == cid);
        assert(t.drop_first() =~= Seq::<(ContainerId, HeapFile)>::empty());
        assert(spec_find_idx(t, cid) == Some(0int));
        assert forall|c: ContainerId| c != cid implies #[trigger] spec_find_idx(t, c)
            == spec_find_idx(s, c) by {
            assert(t[0].0 != c);
            assert(spec_find_idx(t.drop_first(), c) is None);
            assert(spec_find_idx(t, c) is None);
            assert(spec_find_idx(s, c) is None);
        }
    } else {
        assert(s[0].0 != cid);
        assert(spec_find_idx(s.drop_first(), cid) is None);
        lemma_push_find(s.drop_first(), cid, hf);
        assert(t.drop_first() =~= s.drop_first().push((cid, hf)));
        assert(t[0] == s[0]);
        assert(spec_find_idx(t, cid) == Some(s.len() as int));
        assert forall|c: ContainerId| c != cid implies #[trigger] spec_find_idx(t, c)
            == spec_find_idx(s, c) by {
            assert(spec_find_idx(t.drop_first(), c) == spec_find_idx(s.drop_first(), c));
            if t[0].0 == c {
                assert(spec_find_idx(t, c) == Some(0int));
                assert(spec_find_idx(s, c) == Some(0int));
            }
        }
    }
}

/// Removing the entry of `cid` makes the lookup fail for `cid` and keeps
/// every other id's entry.
proof fn lemma_remove_find(s: Seq<(ContainerId, HeapFile)>, cid: ContainerId, i: int)
    requires
        0 <= i < s.len(),
        s[i].0 == cid,
        forall|p: int, q: int| 0 <= p < q < s.len() ==> (#[trigger] s[p]).0 != (#[trigger] s[q]).0,
    ensures
        spec_find_idx(s.remove(i), cid) is None,
        forall|c: ContainerId|
            c != cid && spec_find_idx(s, c) is Some ==> #[trigger] spec_find_idx(s.remove(i), c)
                is Some && s.remove(i)[spec_find_idx(s.remove(i), c)->Some_0].1
                == s[spec_find_idx(s, c)->Some_0].1,
        forall|c: ContainerId|
            c != cid && spec_find_idx(s, c) is None ==> #[trigger] spec_find_idx(s.remove(i), c)
                is None,
{
    let t = s.remove(i);
    s.remove_ensures(i);
    assert forall|p: int| 0 <= p < t.len() implies #[trigger] t[p] == (if p < i {
        s[p]
    } else {
        s[p + 1]
    }) by {}
    lemma_find_idx(t, cid);
    if spec_find_idx(t, cid) is Some {
        let k = spec_find_idx(t, cid)->Some_0;
        if k < i {
            assert(s[k].0 == cid);
        } else {
            assert(s[k + 1].0 == cid);
        }
        assert(false);
    }
    assert forall|c: ContainerId| c != cid && spec_find_idx(s, c) is Some implies #[trigger] spec_find_idx(
        t,
        c,
    ) is Some && t[spec_find_idx(t, c)->Some_0].1 == s[spec_find_idx(s, c)->Some_0].1 by {
        lemma_find_idx(s, c);
        lemma_find_idx(t, c);
        let k = spec_find_idx(s, c)->Some_0;
        assert(k != i);
        if k < i {
            assert(t[k].0 == c);
        } else {
            assert(t[k - 1].0 == c);
        }
        let k2 = spec_find_idx(t, c)->Some_0;
        let ko = if k2 < i {
            k2
        } else {
            k2 + 1
        };
        assert(s[ko].0 == c);
        assert(ko == k) by {
            if ko != k {
                if ko < k {
                    assert(s[ko].0 != s[k].0);
                } else {
                    assert(s[k].0 != s[ko].0);
                }
            }
        }
    }
    assert forall|c: ContainerId| c != cid && spec_find_idx(s, c) is None implies #[trigger] spec_find_idx(
        t,
        c,
    ) is None by {
        lemma_find_idx(s, c);
        lemma_find_idx(t, c);
        if spec_find_idx(t, c) is Some {
            let k2 = spec_find_idx(t, c)->Some_0;
            if k2 < i {
                assert(s[k2].0 == c);
            } else {
                assert(s[k2 + 1].0 == c);
            }
        }
    }
}

} // verus!
