use nikke::storage::{Error, NodeType, PageData, StorageEngine, MIN_PAGE_SIZE, PAGE_SIZE};

#[test]
fn allocate_assigns_sequential_ids() {
    let mut engine = StorageEngine::new(PAGE_SIZE);
    for expected in 0..5u32 {
        let page = engine.allocate_page(NodeType::Leaf).expect("allocation succeeds");
        assert_eq!(page.id, expected);
    }
    assert_eq!(engine.num_pages(), 5);
}

#[test]
fn write_then_read_returns_the_record() {
    let mut engine = StorageEngine::new(PAGE_SIZE);
    let mut page = engine.allocate_page(NodeType::Leaf).expect("allocation succeeds");
    page.keys = vec![1, 2, 3];
    page.values = vec![10, 20, 30];
    page.next = Some(9);
    engine.write_page(&page).expect("the record fits");
    let back = engine.read_page(page.id).expect("the slot decodes");
    assert_eq!(back, page);
}

#[test]
fn read_of_unallocated_page_is_corrupt_page() {
    let mut engine = StorageEngine::new(PAGE_SIZE);
    assert_eq!(engine.read_page(0), Err(Error::CorruptPage));
    engine.allocate_page(NodeType::Leaf).expect("allocation succeeds");
    assert_eq!(engine.read_page(1), Err(Error::CorruptPage));
    assert!(engine.read_page(0).is_ok());
}

#[test]
fn oversized_record_is_rejected_and_nothing_changes() {
    let mut engine = StorageEngine::new(MIN_PAGE_SIZE);
    let page = engine.allocate_page(NodeType::Leaf).expect("a blank record fits");
    let before = engine.read_page(page.id).expect("the slot decodes");
    let mut big = PageData::new(page.id, NodeType::Leaf);
    big.keys = (0i32..10).collect();
    big.values = (0u64..10).collect();
    assert_eq!(engine.write_page(&big), Err(Error::RecordTooLarge));
    assert_eq!(engine.read_page(page.id).expect("the slot still decodes"), before);
}

#[test]
fn image_is_a_whole_number_of_pages() {
    let mut engine = StorageEngine::new(PAGE_SIZE);
    assert_eq!(engine.image().len(), 0);
    for n in 1..4usize {
        engine.allocate_page(NodeType::Internal).expect("allocation succeeds");
        assert_eq!(engine.image().len(), n * PAGE_SIZE);
        assert_eq!(engine.image().len() % PAGE_SIZE, 0);
    }
}

#[test]
fn overwrite_replaces_only_its_slot() {
    let mut engine = StorageEngine::new(PAGE_SIZE);
    let mut a = engine.allocate_page(NodeType::Leaf).expect("allocation succeeds");
    let mut b = engine.allocate_page(NodeType::Leaf).expect("allocation succeeds");
    a.keys = vec![1];
    a.values = vec![100];
    b.keys = vec![2];
    b.values = vec![200];
    engine.write_page(&a).expect("fits");
    engine.write_page(&b).expect("fits");
    a.values = vec![111];
    engine.write_page(&a).expect("fits");
    assert_eq!(engine.read_page(0).unwrap().values, vec![111]);
    assert_eq!(engine.read_page(1).unwrap().values, vec![200]);
}

#[test]
fn image_reloads_losslessly() {
    let mut engine = StorageEngine::new(PAGE_SIZE);
    for _ in 0..3u32 {
        engine.allocate_page(NodeType::Leaf).expect("allocation succeeds");
    }
    let mut page = engine.read_page(1).expect("the slot decodes");
    page.keys = vec![-3, 8];
    page.values = vec![30, 80];
    page.parent_id = Some(2);
    engine.write_page(&page).expect("the record fits");

    let reloaded = StorageEngine::from_image(PAGE_SIZE, engine.image().clone())
        .expect("a produced image loads back");
    assert_eq!(reloaded.num_pages(), 3);
    for id in 0..3u32 {
        assert_eq!(
            reloaded.read_page(id).expect("the slot decodes"),
            engine.read_page(id).expect("the slot decodes"),
        );
    }
}

#[test]
fn from_image_rejects_corrupt_bytes() {
    // Not a whole number of slots.
    assert!(matches!(
        StorageEngine::from_image(PAGE_SIZE, vec![0u8; PAGE_SIZE + 1]),
        Err(Error::CorruptPage)
    ));
    // A slot that decodes to no record.
    assert!(matches!(
        StorageEngine::from_image(PAGE_SIZE, vec![7u8; PAGE_SIZE]),
        Err(Error::CorruptPage)
    ));
    // Two valid slots swapped: ids no longer match their slots.
    let mut engine = StorageEngine::new(PAGE_SIZE);
    engine.allocate_page(NodeType::Leaf).expect("allocation succeeds");
    engine.allocate_page(NodeType::Leaf).expect("allocation succeeds");
    let image = engine.image();
    let mut swapped = Vec::new();
    swapped.extend_from_slice(&image[PAGE_SIZE..]);
    swapped.extend_from_slice(&image[..PAGE_SIZE]);
    assert!(matches!(StorageEngine::from_image(PAGE_SIZE, swapped), Err(Error::CorruptPage)));
}
