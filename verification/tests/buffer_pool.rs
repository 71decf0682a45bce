use nikke::buffer_pool::BufferPool;
use nikke::storage::{NodeType, StorageEngine, PAGE_SIZE};

#[test]
fn cache_never_exceeds_its_capacity() {
    let mut pool = BufferPool::new(2, StorageEngine::new(PAGE_SIZE));
    for _ in 0..6 {
        pool.allocate_page(NodeType::Leaf).expect("allocation succeeds");
        assert!(pool.cached_pages() <= 2);
    }
    for id in 0..6u32 {
        pool.get_page(id).expect("every page reads back");
        assert!(pool.cached_pages() <= 2);
    }
}

#[test]
fn write_through_keeps_cache_and_store_in_step() {
    let mut pool = BufferPool::new(4, StorageEngine::new(PAGE_SIZE));
    let mut page = pool.allocate_page(NodeType::Leaf).expect("allocation succeeds");
    page.keys.push(7);
    page.values.push(70);
    pool.write_page(&page).expect("the record fits");
    let first = pool.get_page(page.id).expect("the page reads back");
    let second = pool.get_page(page.id).expect("the page reads back again");
    assert_eq!(first, page);
    assert_eq!(second, page);
}

#[test]
fn eviction_is_strictly_least_recently_used() {
    let mut pool = BufferPool::new(2, StorageEngine::new(PAGE_SIZE));
    let mut engine_ids = Vec::new();
    for _ in 0..3 {
        engine_ids.push(pool.allocate_page(NodeType::Leaf).expect("allocation succeeds").id);
    }
    // Allocations of 0, 1, 2 with capacity 2 leave [1, 2], oldest first.
    assert_eq!(pool.cached_ids(), vec![1, 2]);
    // A hit promotes to most recently used.
    pool.get_page(1).expect("page 1 reads back");
    assert_eq!(pool.cached_ids(), vec![2, 1]);
    // A miss evicts the least recently used entry, page 2.
    pool.get_page(0).expect("page 0 reads back");
    assert_eq!(pool.cached_ids(), vec![1, 0]);
    // Writing back reorders nothing.
    let page = pool.get_page(1).expect("page 1 reads back");
    assert_eq!(pool.cached_ids(), vec![0, 1]);
    pool.write_page(&page).expect("the record fits");
    assert_eq!(pool.cached_ids(), vec![0, 1]);
}

#[test]
fn evicted_pages_read_back_from_the_store() {
    let mut pool = BufferPool::new(1, StorageEngine::new(PAGE_SIZE));
    let mut a = pool.allocate_page(NodeType::Leaf).expect("allocation succeeds");
    a.keys.push(1);
    a.values.push(10);
    pool.write_page(&a).expect("fits");
    // Allocating a second page evicts the first from the one-slot cache.
    pool.allocate_page(NodeType::Leaf).expect("allocation succeeds");
    assert!(pool.cached_pages() <= 1);
    let back = pool.get_page(a.id).expect("the evicted page reads back");
    assert_eq!(back, a);
}
