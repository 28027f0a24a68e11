use btree_db::btree::{BTree, Inserted_Data};
use btree_db::data::Data;

/// A node page as the store writes it: flags, id, parent id, record count,
/// the records (zero-padded to the page's room) and the child ids
/// (zero-padded likewise).
fn page(order: usize, flags: u8, id: u64, parent: u64, records: &[(u64, u64)], children: &[u64]) -> Vec<u8> {
    let record_room = (2 * order + 1) * 16;
    let child_room = (2 * order + 2) * 8;
    let mut out = vec![flags];
    out.extend_from_slice(&id.to_le_bytes());
    out.extend_from_slice(&parent.to_le_bytes());
    out.extend_from_slice(&(records.len() as u64).to_le_bytes());
    for &(key, data_id) in records {
        out.extend_from_slice(&key.to_le_bytes());
        out.extend_from_slice(&data_id.to_le_bytes());
    }
    out.resize(25 + record_room, 0);
    for child in children {
        out.extend_from_slice(&child.to_le_bytes());
    }
    out.resize(25 + record_room + child_room, 0);
    out
}

/// Data made from a short text.
fn text(s: &str) -> Data {
    Data::try_from(s.as_bytes()).unwrap()
}

/// Inserts `key` with new data made from `s`, which must succeed.
fn put(tree: &mut BTree, key: u64, s: &str) {
    tree.insert(key, Inserted_Data::NewData(text(s))).unwrap();
}

/// The node file as it stands once the cache is written out.
fn file_image(tree: &mut BTree) -> Vec<u8> {
    tree.nodes_file.write_cache();
    tree.nodes_file.pages.concat()
}

#[test]
fn insert_into_empty() {
    let mut tree = BTree::new(Vec::new(), 3, 4, 16);
    put(&mut tree, 1, "01");
    let expected: Vec<u8> = [
        page(3, 1, 0, 0, &[(1, 0)], &[]),
    ]
    .concat();
    assert_eq!(file_image(&mut tree), expected);
}

#[test]
fn insert_existing() {
    let mut tree = BTree::new(Vec::new(), 3, 4, 16);
    put(&mut tree, 1, "01");
    assert!(tree.insert(1, Inserted_Data::NewData(text("01"))).is_err());
    let expected: Vec<u8> = [
        page(3, 1, 0, 0, &[(1, 0)], &[]),
    ]
    .concat();
    assert_eq!(file_image(&mut tree), expected);
}

#[test]
fn insert_into_existing_root() {
    let mut tree = BTree::new(Vec::new(), 3, 4, 16);
    put(&mut tree, 1, "01");
    put(&mut tree, 3, "02");
    put(&mut tree, 0, "03");
    put(&mut tree, 2, "04");
    let expected: Vec<u8> = [
        page(3, 1, 0, 0, &[(0, 2), (1, 0), (2, 3), (3, 1)], &[]),
    ]
    .concat();
    assert_eq!(file_image(&mut tree), expected);
}

#[test]
fn insert_into_full_root_left() {
    let mut tree = BTree::new(Vec::new(), 3, 4, 16);
    put(&mut tree, 1, "01");
    put(&mut tree, 3, "01");
    put(&mut tree, 5, "01");
    put(&mut tree, 7, "01");
    put(&mut tree, 9, "01");
    put(&mut tree, 11, "01");
    put(&mut tree, 2, "01");
    let expected: Vec<u8> = [
        page(3, 5, 0, 2, &[(1, 0), (2, 6), (3, 1)], &[]),
        page(3, 5, 1, 2, &[(7, 3), (9, 4), (11, 5)], &[]),
        page(3, 0, 2, 0, &[(5, 2)], &[0, 1]),
    ]
    .concat();
    assert_eq!(file_image(&mut tree), expected);
}

#[test]
fn insert_into_full_root_right() {
    let mut tree = BTree::new(Vec::new(), 3, 4, 16);
    put(&mut tree, 1, "01");
    put(&mut tree, 3, "01");
    put(&mut tree, 5, "01");
    put(&mut tree, 7, "01");
    put(&mut tree, 9, "01");
    put(&mut tree, 11, "01");
    put(&mut tree, 10, "01");
    let expected: Vec<u8> = [
        page(3, 5, 0, 2, &[(1, 0), (3, 1), (5, 2)], &[]),
        page(3, 5, 1, 2, &[(9, 4), (10, 6), (11, 5)], &[]),
        page(3, 0, 2, 0, &[(7, 3)], &[0, 1]),
    ]
    .concat();
    assert_eq!(file_image(&mut tree), expected);
}

#[test]
fn insert_into_full_root_middle() {
    let mut tree = BTree::new(Vec::new(), 3, 4, 16);
    put(&mut tree, 1, "01");
    put(&mut tree, 3, "01");
    put(&mut tree, 5, "01");
    put(&mut tree, 7, "01");
    put(&mut tree, 9, "01");
    put(&mut tree, 11, "01");
    put(&mut tree, 6, "01");
    let expected: Vec<u8> = [
        page(3, 5, 0, 2, &[(1, 0), (3, 1), (5, 2)], &[]),
        page(3, 5, 1, 2, &[(7, 3), (9, 4), (11, 5)], &[]),
        page(3, 0, 2, 0, &[(6, 6)], &[0, 1]),
    ]
    .concat();
    assert_eq!(file_image(&mut tree), expected);
}

#[test]
fn insert_into_full_leaf_split() {
    let mut tree = BTree::new(Vec::new(), 2, 4, 16);
    put(&mut tree, 1, "01");
    put(&mut tree, 3, "01");
    put(&mut tree, 5, "01");
    put(&mut tree, 7, "01");
    put(&mut tree, 9, "01");
    put(&mut tree, 11, "01");
    put(&mut tree, 13, "01");
    put(&mut tree, 15, "01");
    put(&mut tree, 17, "01");
    put(&mut tree, 18, "01");
    let expected: Vec<u8> = [
        page(2, 5, 0, 2, &[(1, 0), (3, 1), (5, 2), (7, 3)], &[]),
        page(2, 5, 1, 2, &[(11, 5), (13, 6)], &[]),
        page(2, 0, 2, 0, &[(9, 4), (15, 7)], &[0, 1, 3]),
        page(2, 5, 3, 2, &[(17, 8), (18, 9)], &[]),
    ]
    .concat();
    assert_eq!(file_image(&mut tree), expected);
}

#[test]
fn insert_into_full_leaf_compensation() {
    let mut tree = BTree::new(Vec::new(), 2, 4, 16);
    put(&mut tree, 1, "01");
    put(&mut tree, 3, "01");
    put(&mut tree, 5, "01");
    put(&mut tree, 7, "01");
    put(&mut tree, 9, "01");
    put(&mut tree, 11, "01");
    put(&mut tree, 13, "01");
    put(&mut tree, 15, "01");
    put(&mut tree, 17, "01");
    put(&mut tree, 18, "01");
    put(&mut tree, 19, "01");
    put(&mut tree, 20, "01");
    let expected: Vec<u8> = [
        page(2, 5, 0, 2, &[(1, 0), (3, 1), (5, 2), (7, 3)], &[]),
        page(2, 5, 1, 2, &[(11, 5), (13, 6)], &[]),
        page(2, 0, 2, 0, &[(9, 4), (15, 7)], &[0, 1, 3]),
        page(2, 5, 3, 2, &[(17, 8), (18, 9), (19, 10), (20, 11)], &[]),
    ]
    .concat();
    assert_eq!(file_image(&mut tree), expected);
}
