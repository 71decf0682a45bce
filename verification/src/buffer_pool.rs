//! BufferPool: a bounded page cache over the storage engine.
//!
//! The pool holds at most `capacity` recently used page records, ordered from
//! least to most recently used, and reads through to the store on a miss.
//! Every mutation is written through to the store at once, so a cached record
//! always equals the stored one: a repeated `get_page` for the same id hands
//! back the same logical content, never a stale copy.

use vstd::prelude::*;

use crate::storage::{blank_page, Error, NodeType, PageData, PageView, StorageEngine};
use crate::storage::MAX_PAGE_COUNT;
use crate::codec;

verus! {

/// A bounded, write-through, least-recently-used page cache.
pub struct BufferPool {
    capacity: usize,
    storage: StorageEngine,
    /// Cached records, least recently used first.
    entries: Vec<(u32, PageData)>,
}

impl View for BufferPool {
    type V = Seq<PageView>;

    closed spec fn view(&self) -> Seq<PageView> {
        self.storage@
    }
}

impl BufferPool {
    pub closed spec fn capacity_spec(self) -> int {
        self.capacity as int
    }

    /// How many pages are memory-resident right now.
    pub closed spec fn cached_spec(self) -> int {
        self.entries@.len() as int
    }

    pub closed spec fn page_size_spec(self) -> int {
        self.storage.page_size_spec()
    }

    /// The resident page ids, least recently used first.
    pub closed spec fn lru_spec(self) -> Seq<u32> {
        self.entries@.map_values(|e: (u32, PageData)| e.0)
    }

    /// The pool is well formed: the store is, the cache is within capacity,
    /// cached ids are distinct, and every cached record equals the stored
    /// record of its id (write-through coherence).
    pub closed spec fn inv(self) -> bool {
        &&& self.storage.wf()
        &&& self.capacity >= 1
        &&& self.entries@.len() <= self.capacity
        &&& forall|j: int|
            0 <= j < self.entries@.len() ==> (#[trigger] self.entries@[j]).0 < self.storage@.len()
                && self.entries@[j].1@ == self.storage@[self.entries@[j].0 as int]
        &&& forall|j1: int, j2: int|
            0 <= j1 < j2 < self.entries@.len() ==> (#[trigger] self.entries@[j1]).0 != (
            #[trigger] self.entries@[j2]).0
    }

    /// Creates a pool of the given capacity over a store.
    pub fn new(capacity: usize, storage: StorageEngine) -> (pool: Self)
        requires
            capacity >= 1,
            storage.wf(),
        ensures
            pool.inv(),
            pool@ == storage@,
            pool.capacity_spec() == capacity,
            pool.page_size_spec() == storage.page_size_spec(),
            pool.cached_spec() == 0,
    {
        BufferPool { capacity, storage, entries: Vec::new() }
    }

    pub fn capacity(&self) -> (n: usize)
        ensures
            n == self.capacity_spec(),
    {
        self.capacity
    }

    /// How many pages are memory-resident; never more than the capacity.
    pub fn cached_pages(&self) -> (n: usize)
        requires
            self.inv(),
        ensures
            n == self.cached_spec(),
            n <= self.capacity_spec(),
    {
        self.entries.len()
    }

    pub fn num_pages(&self) -> (n: usize)
        requires
            self.inv(),
        ensures
            n == self@.len(),
    {
        self.storage.num_pages()
    }

    pub fn page_size(&self) -> (n: usize)
        ensures
            n == self.page_size_spec(),
    {
        self.storage.page_size()
    }

    /// The resident page ids, least recently used first.
    pub fn cached_ids(&self) -> (r: Vec<u32>)
        ensures
            r@ == self.lru_spec(),
    {
        let mut r: Vec<u32> = Vec::new();
        let mut j: usize = 0;
        while j < self.entries.len()
            invariant
                j <= self.entries@.len(),
                r@ == self.lru_spec().take(j as int),
            decreases self.entries@.len() - j,
        {
            r.push(self.entries[j].0);
            proof {
                assert(self.lru_spec().take(j + 1) =~= self.lru_spec().take(j as int).push(
                    self.entries@[j as int].0,
                ));
            }
            j += 1;
        }
        proof {
            assert(self.lru_spec().take(self.entries@.len() as int) =~= self.lru_spec());
        }
        r
    }

    /// The store's byte image.
    pub fn image(&self) -> (r: &Vec<u8>)
        requires
            self.inv(),
        ensures
            r@.len() == self@.len() * self.page_size_spec(),
    {
        self.storage.image()
    }

    /// Position of `page_id` in the cache, if present.
    fn find_entry(&self, page_id: u32) -> (r: Option<usize>)
        ensures
            match r {
                Some(j) => j < self.entries@.len() && self.entries@[j as int].0 == page_id
                    && self.lru_spec().contains(page_id),
                None => !self.lru_spec().contains(page_id) && forall|j: int|
                    0 <= j < self.entries@.len() ==> (#[trigger] self.entries@[j]).0 != page_id,
            },
    {
        let mut j: usize = 0;
        while j < self.entries.len()
            invariant
                j <= self.entries@.len(),
                forall|t: int| 0 <= t < j ==> (#[trigger] self.entries@[t]).0 != page_id,
            decreases self.entries@.len() - j,
        {
            if self.entries[j].0 == page_id {
                proof {
                    assert(self.lru_spec()[j as int] == page_id);
                }
                return Some(j);
            }
            j += 1;
        }
        proof {
            assert forall|t: int| 0 <= t < self.lru_spec().len() implies self.lru_spec()[t]
                != page_id by {
                assert(self.lru_spec()[t] == self.entries@[t].0);
            }
        }
        None
    }

    /// Retrieves the record of page `page_id`, from the cache when resident
    /// (promoting it to most recently used), otherwise reading through the
    /// store and inserting it, evicting the least recently used entry if the
    /// cache is full. The store is never changed, and the result is exactly
    /// the stored record. Fails with `CorruptPage` exactly when no such page
    /// has been allocated.
    pub fn get_page(&mut self, page_id: u32) -> (r: Result<PageData, Error>)
        requires
            old(self).inv(),
        ensures
            final(self).inv(),
            final(self)@ == old(self)@,
            final(self).capacity_spec() == old(self).capacity_spec(),
            final(self).page_size_spec() == old(self).page_size_spec(),
            final(self).cached_spec() <= final(self).capacity_spec(),
            match r {
                Ok(p) => page_id < old(self)@.len() && p@ == old(self)@[page_id as int],
                Err(e) => e == Error::CorruptPage && page_id >= old(self)@.len(),
            },
            // Strict least-recently-used policy: a hit promotes the page to
            // most recently used; a miss inserts it there, evicting the
            // least recently used entry first when the cache is full.
            old(self).lru_spec().contains(page_id) ==> final(self).lru_spec()
                == old(self).lru_spec().remove(old(self).lru_spec().index_of(page_id)).push(page_id),
            !old(self).lru_spec().contains(page_id) && r is Ok
                && old(self).cached_spec() < old(self).capacity_spec()
                ==> final(self).lru_spec() == old(self).lru_spec().push(page_id),
            !old(self).lru_spec().contains(page_id) && r is Ok
                && old(self).cached_spec() == old(self).capacity_spec()
                ==> final(self).lru_spec()
                == old(self).lru_spec().subrange(1, old(self).cached_spec()).push(page_id),
            r is Err ==> final(self).lru_spec() == old(self).lru_spec(),
    {
        match self.find_entry(page_id) {
            Some(j) => {
                let ghost pre = self.entries@;
                let ghost prelru = self.lru_spec();
                let (idv, page) = self.entries.remove(j);
                let result = page.clone();
                self.entries.push((idv, page));
                proof {
                    let post = self.entries@;
                    assert(post =~= pre.remove(j as int).push(pre[j as int]));
                    assert(prelru[j as int] == page_id);
                    let i0 = prelru.index_of(page_id);
                    assert(prelru[i0] == page_id && 0 <= i0 < prelru.len());
                    assert(i0 == j as int) by {
                        if i0 != j as int {
                            assert(pre[i0].0 == prelru[i0]);
                        }
                    }
                    assert(self.lru_spec() =~= prelru.remove(j as int).push(page_id));
                    assert forall|t: int| 0 <= t < post.len() implies (#[trigger] post[t]).0
                        < self.storage@.len() && post[t].1@ == self.storage@[post[t].0 as int] by {
                        if t < post.len() - 1 {
                            if t < j {
                                assert(post[t] == pre[t]);
                            } else {
                                assert(post[t] == pre[t + 1]);
                            }
                        } else {
                            assert(post[t] == pre[j as int]);
                        }
                    }
                    assert forall|t1: int, t2: int| 0 <= t1 < t2 < post.len() implies (
                    #[trigger] post[t1]).0 != (#[trigger] post[t2]).0 by {
                        let o1 = if t1 < j { t1 } else if t1 < post.len() - 1 { t1 + 1 } else { j as int };
                        let o2 = if t2 < j { t2 } else if t2 < post.len() - 1 { t2 + 1 } else { j as int };
                        assert(post[t1] == pre[o1]);
                        assert(post[t2] == pre[o2]);
                    }
                }
                Ok(result)
            },
            None => {
                let ghost prelru = self.lru_spec();
                let page = match self.storage.read_page(page_id) {
                    Ok(p) => p,
                    Err(e) => {
                        return Err(e);
                    },
                };
                let ghost was_full = self.entries@.len() >= self.capacity;
                if self.entries.len() >= self.capacity {
                    let ghost pre = self.entries@;
                    let _evicted = self.entries.remove(0);
                    proof {
                        assert(self.entries@ =~= pre.subrange(1, pre.len() as int));
                        assert(self.lru_spec() =~= prelru.subrange(1, prelru.len() as int));
                    }
                }
                let result = page.clone();
                let ghost pre = self.entries@;
                let ghost midlru = self.lru_spec();
                self.entries.push((page_id, page));
                proof {
                    assert forall|t1: int, t2: int|
                        0 <= t1 < t2 < self.entries@.len() implies (
                    #[trigger] self.entries@[t1]).0 != (#[trigger] self.entries@[t2]).0 by {
                        if t2 == self.entries@.len() - 1 {
                            assert(self.entries@[t1] == pre[t1]);
                        }
                    }
                    assert(self.lru_spec() =~= midlru.push(page_id));
                    if was_full {
                        assert(self.lru_spec() =~= prelru.subrange(1, prelru.len() as int).push(
                            page_id,
                        ));
                    }
                }
                Ok(result)
            },
        }
    }

    /// Persists a record to the store at once (write-through) and refreshes
    /// the cached copy, if one is resident. Fails with `RecordTooLarge`
    /// exactly when the encoded record does not fit in one page slot, and
    /// then changes nothing.
    pub fn write_page(&mut self, page: &PageData) -> (r: Result<(), Error>)
        requires
            old(self).inv(),
            page@.id < old(self)@.len(),
        ensures
            final(self).inv(),
            final(self).capacity_spec() == old(self).capacity_spec(),
            final(self).page_size_spec() == old(self).page_size_spec(),
            final(self).cached_spec() == old(self).cached_spec(),
            match r {
                Ok(_) => final(self)@ == old(self)@.update(page@.id as int, page@),
                Err(e) => e == Error::RecordTooLarge && final(self)@ == old(self)@,
            },
            r is Ok <==> codec::encoded_len(page@) <= old(self).page_size_spec(),
            // Writing back never reorders the cache.
            final(self).lru_spec() == old(self).lru_spec(),
    {
        match self.storage.write_page(page) {
            Ok(_) => {},
            Err(e) => {
                return Err(e);
            },
        }
        match self.find_entry(page.id) {
            Some(j) => {
                let ghost pre = self.entries@;
                let ghost prelru = self.lru_spec();
                self.entries.set(j, (page.id, page.clone()));
                proof {
                    assert forall|t1: int, t2: int|
                        0 <= t1 < t2 < self.entries@.len() implies (
                    #[trigger] self.entries@[t1]).0 != (#[trigger] self.entries@[t2]).0 by {
                        assert(pre[t1].0 != pre[t2].0);
                    }
                    assert(self.lru_spec() =~= prelru);
                }
            },
            None => {},
        }
        Ok(())
    }

    /// Allocates a fresh blank page through the store and inserts it into
    /// the cache as most recently used, evicting the least recently used
    /// entry if the cache is full. Fails with `Io` exactly when the page-id
    /// space is exhausted.
    pub fn allocate_page(&mut self, node_type: NodeType) -> (r: Result<PageData, Error>)
        requires
            old(self).inv(),
        ensures
            final(self).inv(),
            final(self).capacity_spec() == old(self).capacity_spec(),
            final(self).page_size_spec() == old(self).page_size_spec(),
            final(self).cached_spec() <= final(self).capacity_spec(),
            match r {
                Ok(p) => {
                    &&& old(self)@.len() <= MAX_PAGE_COUNT as int
                    &&& p@ == blank_page(old(self)@.len() as u32, node_type)
                    &&& final(self)@ == old(self)@.push(p@)
                },
                Err(e) => {
                    &&& e == Error::Io
                    &&& old(self)@.len() > MAX_PAGE_COUNT as int
                    &&& final(self)@ == old(self)@
                },
            },
            // The fresh page becomes most recently used, evicting the least
            // recently used entry first when the cache is full.
            r is Ok && old(self).cached_spec() < old(self).capacity_spec()
                ==> final(self).lru_spec() == old(self).lru_spec().push(old(self)@.len() as u32),
            r is Ok && old(self).cached_spec() == old(self).capacity_spec()
                ==> final(self).lru_spec()
                == old(self).lru_spec().subrange(1, old(self).cached_spec()).push(
                old(self)@.len() as u32,
            ),
            r is Err ==> final(self).lru_spec() == old(self).lru_spec(),
    {
        let ghost prelru = self.lru_spec();
        let page = match self.storage.allocate_page(node_type) {
            Ok(p) => p,
            Err(e) => {
                return Err(e);
            },
        };
        let ghost was_full = self.entries@.len() >= self.capacity;
        if self.entries.len() >= self.capacity {
            let ghost pre = self.entries@;
            let _evicted = self.entries.remove(0);
            proof {
                assert(self.entries@ =~= pre.subrange(1, pre.len() as int));
                assert(self.lru_spec() =~= prelru.subrange(1, prelru.len() as int));
            }
        }
        let cached = page.clone();
        let ghost pre = self.entries@;
        let ghost midlru = self.lru_spec();
        self.entries.push((page.id, cached));
        proof {
            assert forall|t1: int, t2: int| 0 <= t1 < t2 < self.entries@.len() implies (
            #[trigger] self.entries@[t1]).0 != (#[trigger] self.entries@[t2]).0 by {
                if t2 == self.entries@.len() - 1 {
                    assert(self.entries@[t1] == pre[t1]);
                }
            }
            assert(self.lru_spec() =~= midlru.push(page.id));
            if was_full {
                assert(self.lru_spec() =~= prelru.subrange(1, prelru.len() as int).push(page.id));
            }
        }
        Ok(page)
    }
}

} // verus!
