use nikke::codec::{decode_page, encode_page};
use nikke::storage::{NodeType, PageData, PAGE_SIZE};

fn sample_leaf() -> PageData {
    PageData {
        id: 7,
        node_type: NodeType::Leaf,
        keys: vec![-5, 0, 9],
        children: vec![],
        values: vec![50, 0, 90],
        next: Some(8),
        parent_id: Some(3),
    }
}

fn sample_internal() -> PageData {
    PageData {
        id: 3,
        node_type: NodeType::Internal,
        keys: vec![-100, 4, 2_000_000_000],
        children: vec![7, 8, 9, 10],
        values: vec![],
        next: None,
        parent_id: None,
    }
}

#[test]
fn round_trip_leaf() {
    let page = sample_leaf();
    let bytes = encode_page(&page);
    let decoded = decode_page(&bytes).expect("a leaf encoding decodes");
    assert_eq!(decoded, page);
}

#[test]
fn round_trip_internal() {
    let page = sample_internal();
    let bytes = encode_page(&page);
    let decoded = decode_page(&bytes).expect("an internal encoding decodes");
    assert_eq!(decoded, page);
}

#[test]
fn round_trip_blank_pages() {
    for kind in [NodeType::Leaf, NodeType::Internal] {
        let page = PageData::new(0, kind);
        let decoded = decode_page(&encode_page(&page)).expect("a blank page decodes");
        assert_eq!(decoded, page);
    }
}

#[test]
fn round_trip_extreme_keys() {
    let page = PageData {
        id: u32::MAX,
        node_type: NodeType::Leaf,
        keys: vec![i32::MIN, -1, 0, 1, i32::MAX],
        children: vec![],
        values: vec![u64::MAX, 1, 0, 2, 3],
        next: Some(u32::MAX),
        parent_id: None,
    };
    let decoded = decode_page(&encode_page(&page)).expect("extreme values decode");
    assert_eq!(decoded, page);
}

#[test]
fn round_trip_survives_zero_padding() {
    let page = sample_leaf();
    let mut bytes = encode_page(&page);
    while bytes.len() < PAGE_SIZE {
        bytes.push(0);
    }
    let decoded = decode_page(&bytes).expect("a padded slot decodes");
    assert_eq!(decoded, page);
}

#[test]
fn encoded_length_is_header_plus_elements() {
    // 39-byte header, 4 bytes per key and child id, 8 bytes per value.
    assert_eq!(encode_page(&PageData::new(0, NodeType::Leaf)).len(), 39);
    assert_eq!(encode_page(&sample_leaf()).len(), 39 + 4 * 3 + 8 * 3);
    assert_eq!(encode_page(&sample_internal()).len(), 39 + 4 * 3 + 4 * 4);
}

#[test]
fn decode_rejects_short_input() {
    assert!(decode_page(&vec![1, 2, 3]).is_none());
    assert!(decode_page(&Vec::new()).is_none());
}

#[test]
fn decode_rejects_unknown_kind() {
    let mut bytes = encode_page(&sample_leaf());
    bytes[0] = 9;
    assert!(decode_page(&bytes).is_none());
}

#[test]
fn decode_rejects_truncated_arrays() {
    let mut bytes = encode_page(&sample_leaf());
    bytes.truncate(bytes.len() - 1);
    assert!(decode_page(&bytes).is_none());
}
