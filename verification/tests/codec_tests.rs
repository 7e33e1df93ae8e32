use kvdb::bytes::{bytes_cmp, Cmp};
use kvdb::db_records::DataType;
use kvdb::header::DatabaseHeader;
use kvdb::node::Node;
use kvdb::records::{create_record, serialize_record};

#[test]
fn byte_strings_order_lexicographically() {
    let a = b"abc".to_vec();
    let b_ = b"abd".to_vec();
    let prefix = b"ab".to_vec();
    assert_eq!(bytes_cmp(&a, &b_), Cmp::Lt);
    assert_eq!(bytes_cmp(&b_, &a), Cmp::Gt);
    assert_eq!(bytes_cmp(&a, &a.clone()), Cmp::Eq);
    assert_eq!(bytes_cmp(&prefix, &a), Cmp::Lt);
    assert_eq!(bytes_cmp(&a, &prefix), Cmp::Gt);
    assert_eq!(bytes_cmp(&Vec::new(), &prefix), Cmp::Lt);
}

#[test]
fn node_encoding_round_trips() {
    let mut n = Node::new(false);
    n.keys = vec![b"alpha".to_vec(), b"beta".to_vec()];
    n.values = vec![b"1".to_vec(), b"2".to_vec()];
    n.children = vec![8, 4104, 8200];

    let mut page = n.to_bytes();
    page.resize(4096, 0);
    let back = Node::from_bytes(&page).unwrap();
    assert_eq!(back.keys, n.keys);
    assert_eq!(back.values, n.values);
    assert_eq!(back.children, n.children);
    assert_eq!(back.is_leaf, false);
}

#[test]
fn truncated_page_is_rejected() {
    let mut n = Node::new(true);
    n.keys = vec![b"k".to_vec()];
    n.values = vec![b"v".to_vec()];
    let bytes = n.to_bytes();
    let truncated = bytes[0..bytes.len() - 1].to_vec();
    assert!(Node::from_bytes(&truncated).is_err());
    assert!(Node::from_bytes(&Vec::new()).is_err());
}

#[test]
fn record_serialization_layout() {
    let rec = create_record(b"file1".to_vec(), b"hello".to_vec());
    assert_eq!(rec.header.size, 5);
    let bytes = serialize_record(&rec);
    let mut expected = b"file1;".to_vec();
    expected.extend_from_slice(&5u64.to_be_bytes());
    expected.extend_from_slice(b"hello");
    assert_eq!(bytes, expected);
}

#[test]
fn typed_record_serialization_layout() {
    let rec = kvdb::db_records::create_record(b"notes".to_vec(), DataType::TXT, b"hi".to_vec());
    let bytes = kvdb::db_records::serialize_record(rec);
    let mut expected = b"notes;txt".to_vec();
    expected.extend_from_slice(&2u32.to_be_bytes());
    expected.extend_from_slice(b"hi");
    assert_eq!(bytes, expected);
}

#[test]
fn data_type_names() {
    assert_eq!(DataType::JSON.to_string(), "json");
    assert_eq!(DataType::TXT.to_string(), "txt");
}

#[test]
fn database_header_round_trips() {
    let h = DatabaseHeader::new();
    assert_eq!(&h.magic_number, b"RUST");
    assert_eq!(h.version, 1);
    assert_eq!(h.page_size, 4096);
    let bytes = h.to_bytes();
    let back = DatabaseHeader::from_bytes(&bytes).unwrap();
    assert_eq!(back.magic_number, h.magic_number);
    assert_eq!(back.version, 1);
    assert_eq!(back.root_offset, None);
    assert_eq!(back.page_size, 4096);
    assert_eq!(back.free_list_head, None);

    let h2 = DatabaseHeader {
        magic_number: *b"RUST",
        version: 3,
        root_offset: Some(4104),
        page_size: 4096,
        free_list_head: Some(8200),
    };
    let bytes2 = h2.to_bytes();
    let back2 = DatabaseHeader::from_bytes(&bytes2).unwrap();
    assert_eq!(back2.root_offset, Some(4104));
    assert_eq!(back2.free_list_head, Some(8200));
    assert_eq!(back2.version, 3);

    assert!(DatabaseHeader::from_bytes(&vec![0u8; 10]).is_err());
}
