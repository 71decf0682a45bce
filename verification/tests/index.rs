use nikke::buffer_pool::BufferPool;
use nikke::index::BPlusTree;
use nikke::storage::{Error, NodeType, PageData, StorageEngine, PAGE_SIZE};

fn new_tree(order: usize, capacity: usize) -> BPlusTree {
    let storage = StorageEngine::new(PAGE_SIZE);
    let pool = BufferPool::new(capacity, storage);
    BPlusTree::new(order, pool)
}

fn all_pages(tree: &mut BPlusTree) -> Vec<PageData> {
    let n = tree.num_pages();
    let mut pages = Vec::new();
    for id in 0..n {
        pages.push(tree.read_page(id as u32).expect("every allocated page reads back"));
    }
    pages
}

/// Tests single-threaded insert and search operations.
#[test]
fn test_single_thread_insert_and_search() {
    let mut tree = new_tree(4, 100);
    for i in 0..100i32 {
        tree.insert(i, (i * 10) as u64).expect("insert succeeds");
    }
    for i in 0..100i32 {
        let result = tree.search(i).expect("search succeeds");
        assert_eq!(result, Some((i * 10) as u64));
    }
}

/// The four-writers scenario, with the same four disjoint key ranges the
/// threaded variant uses (writer `i` owns `25i..25i+25`), inserted in a
/// round-robin interleaving; every range then searches back correctly.
/// The genuinely threaded run, through a mutex, lives in the demo program,
/// since spawning threads is out of reach for this test harness.
#[test]
fn test_multi_thread_insert_and_search() {
    let mut tree = new_tree(4, 100);
    for j in 0..25i32 {
        for i in 0..4i32 {
            let key = i * 25 + j;
            tree.insert(key, (key * 10) as u64).expect("insert succeeds");
        }
    }
    for i in 0..4i32 {
        for j in 0..25i32 {
            let key = i * 25 + j;
            let result = tree.search(key).expect("search succeeds");
            assert_eq!(result, Some((key * 10) as u64));
        }
    }
}

#[test]
fn duplicate_key_is_rejected_and_first_value_kept() {
    let mut tree = new_tree(4, 100);
    tree.insert(5, 50).expect("first insert succeeds");
    assert_eq!(tree.insert(5, 99), Err(Error::DuplicateKey));
    assert_eq!(tree.search(5).expect("search succeeds"), Some(50));
}

#[test]
fn search_on_empty_tree_is_none() {
    let mut tree = new_tree(4, 100);
    assert_eq!(tree.search(42).expect("search succeeds"), None);
}

#[test]
fn search_for_a_missing_key_is_none() {
    let mut tree = new_tree(4, 100);
    for i in [2i32, 4, 6, 8, 10] {
        tree.insert(i, i as u64).expect("insert succeeds");
    }
    for i in [1i32, 3, 5, 9, 11, -7] {
        assert_eq!(tree.search(i).expect("search succeeds"), None);
    }
}

#[test]
fn descending_and_negative_keys_are_found() {
    let mut tree = new_tree(4, 100);
    for i in (-50..50i32).rev() {
        tree.insert(i, (i as i64 * 3) as u64).expect("insert succeeds");
    }
    for i in -50..50i32 {
        assert_eq!(tree.search(i).expect("search succeeds"), Some((i as i64 * 3) as u64));
    }
}

/// The fan-out invariant, checked over every allocated page after a long
/// run of inserts: key counts within bounds, keys ascending, one more child
/// than keys in internal pages, one value per key in leaves, and exactly
/// one root.
#[test]
fn fanout_invariant_holds_after_inserts() {
    let order = 4usize;
    let mut tree = new_tree(order, 100);
    for i in 0..100i32 {
        tree.insert(i, i as u64).expect("insert succeeds");
    }
    let root = tree.root_id().expect("the tree has a root");
    let pages = all_pages(&mut tree);
    let mut roots = 0;
    for page in &pages {
        if page.parent_id.is_none() {
            roots += 1;
            assert_eq!(page.id, root);
        } else {
            // Non-root pages hold at least ceil(order/2) - 1 keys.
            assert!(page.keys.len() >= order / 2 + order % 2 - 1);
        }
        assert!(page.keys.len() <= order - 1);
        for w in page.keys.windows(2) {
            assert!(w[0] < w[1]);
        }
        match page.node_type {
            NodeType::Internal => {
                assert_eq!(page.children.len(), page.keys.len() + 1);
                assert!(page.values.is_empty());
            }
            NodeType::Leaf => {
                assert_eq!(page.values.len(), page.keys.len());
                assert!(page.children.is_empty());
            }
        }
    }
    assert_eq!(roots, 1);
}

/// Walking `next_leaf` links from the leftmost leaf visits every leaf
/// exactly once, and the keys met along the way are all 100 inserted keys
/// in strictly ascending order.
#[test]
fn leaf_chain_visits_all_leaves_in_order() {
    let mut tree = new_tree(4, 100);
    for i in 0..100i32 {
        tree.insert(i, i as u64).expect("insert succeeds");
    }
    let pages = all_pages(&mut tree);
    let leaf_count = pages
        .iter()
        .filter(|p| matches!(p.node_type, NodeType::Leaf))
        .count();

    // Descend to the leftmost leaf.
    let mut current = tree.root_id().expect("the tree has a root");
    loop {
        let page = tree.read_page(current).expect("the page reads back");
        match page.node_type {
            NodeType::Internal => current = page.children[0],
            NodeType::Leaf => break,
        }
    }

    // Walk the chain.
    let mut visited = Vec::new();
    let mut keys = Vec::new();
    loop {
        assert!(!visited.contains(&current), "the leaf chain has no cycle");
        visited.push(current);
        let page = tree.read_page(current).expect("the page reads back");
        assert!(matches!(page.node_type, NodeType::Leaf));
        keys.extend_from_slice(&page.keys);
        match page.next {
            Some(next) => current = next,
            None => break,
        }
    }
    assert_eq!(visited.len(), leaf_count, "the chain visits every leaf once");
    assert_eq!(keys.len(), 100);
    for (i, k) in keys.iter().enumerate() {
        assert_eq!(*k, i as i32);
    }
}

/// With cache capacity C and a tree spanning more than C pages, the
/// memory-resident page count never exceeds C, and repeated access to a
/// page id always hands back the same logical content.
#[test]
fn cache_bound_holds_while_the_tree_grows() {
    let capacity = 3usize;
    let mut tree = new_tree(4, capacity);
    for i in 0..60i32 {
        tree.insert(i, (i * 2) as u64).expect("insert succeeds");
        assert!(tree.cached_pages() <= capacity);
    }
    assert!(tree.num_pages() > capacity);
    for i in 0..60i32 {
        assert_eq!(tree.search(i).expect("search succeeds"), Some((i * 2) as u64));
        assert!(tree.cached_pages() <= capacity);
    }
    let once = tree.read_page(0).expect("page 0 reads back");
    let again = tree.read_page(0).expect("page 0 reads back again");
    assert_eq!(once, again);
}

#[test]
fn keys_are_searchable_immediately_after_insertion() {
    let mut tree = new_tree(4, 100);
    for i in 0..100i32 {
        tree.insert(i, (i * 7) as u64).expect("insert succeeds");
        assert_eq!(tree.search(i).expect("search succeeds"), Some((i * 7) as u64));
        // Earlier keys stay reachable while the tree reshapes itself.
        assert_eq!(tree.search(0).expect("search succeeds"), Some(0));
    }
}

#[test]
fn duplicates_are_rejected_after_many_splits() {
    let mut tree = new_tree(4, 100);
    for i in 0..100i32 {
        tree.insert(i, i as u64).expect("insert succeeds");
    }
    for i in [0i32, 37, 50, 99] {
        assert_eq!(tree.insert(i, 12345), Err(Error::DuplicateKey));
        assert_eq!(tree.search(i).expect("search succeeds"), Some(i as u64));
    }
}

#[test]
fn trees_with_other_orders_work() {
    for order in [3usize, 5, 8] {
        let mut tree = new_tree(order, 10);
        for i in 0..40i32 {
            tree.insert(i, (i + 1) as u64).expect("insert succeeds");
        }
        for i in 0..40i32 {
            assert_eq!(tree.search(i).expect("search succeeds"), Some((i + 1) as u64));
        }
    }
}
