use btree_db::btree::{BTree, Inserted_Data};
use btree_db::data::Data;

/// A node page as the store writes it: flags, id, parent id, record count,
/// the records (zero-padded to the page's room) and the child ids
/// (zero-padded likewise).
fn page(order: usize, flags: u8, id: u64, parent: u64, records: &[(u64, u64)], children: &[u64]) -> Vec<u8> {
    let record_room = (2 * order + 1) * 16;
    let child_room = (2 * order + 2) * 8;
    let mut out = vec![flags];
    out.extend_from_slice(&id.to_le_bytes());
    out.extend_from_slice(&parent.to_le_bytes());
    out.extend_from_slice(&(records.len() as u64).to_le_bytes());
    for &(key, data_id) in records {
        out.extend_from_slice(&key.to_le_bytes());
        out.extend_from_slice(&data_id.to_le_bytes());
    }
    out.resize(25 + record_room, 0);
    for child in children {
        out.extend_from_slice(&child.to_le_bytes());
    }
    out.resize(25 + record_room + child_room, 0);
    out
}

/// Data made from a short text.
fn text(s: &str) -> Data {
    Data::try_from(s.as_bytes()).unwrap()
}

/// Inserts `key` with new data made from `s`, which must succeed.
fn put(tree: &mut BTree, key: u64, s: &str) {
    tree.insert(key, Inserted_Data::NewData(text(s))).unwrap();
}

/// The node file as it stands once the cache is written out.
fn file_image(tree: &mut BTree) -> Vec<u8> {
    tree.nodes_file.write_cache();
    tree.nodes_file.pages.concat()
}

#[test]
fn update_same_node() {
    let mut tree = BTree::new(Vec::new(), 2, 4, 16);
    put(&mut tree, 0, "00");
    put(&mut tree, 1, "01");
    put(&mut tree, 2, "02");
    put(&mut tree, 4, "03");
    put(&mut tree, 5, "04");
    put(&mut tree, 6, "05");
    put(&mut tree, 7, "06");
    tree.update(1, 3, Inserted_Data::NewData(text("13"))).unwrap();
    let expected: Vec<u8> = [
        page(2, 5, 0, 2, &[(0, 0), (2, 2), (3, 1), (4, 3)], &[]),
        page(2, 5, 1, 2, &[(6, 5), (7, 6)], &[]),
        page(2, 0, 2, 0, &[(5, 4)], &[0, 1]),
    ]
    .concat();
    assert_eq!(file_image(&mut tree), expected);
}

#[test]
fn update_non_existent() {
    let mut tree = BTree::new(Vec::new(), 2, 4, 16);
    put(&mut tree, 0, "01");
    put(&mut tree, 1, "01");
    put(&mut tree, 2, "01");
    put(&mut tree, 4, "01");
    put(&mut tree, 5, "01");
    put(&mut tree, 6, "01");
    put(&mut tree, 7, "01");
    assert!(tree.update(3, 8, Inserted_Data::NoData).is_err());
    let expected: Vec<u8> = [
        page(2, 5, 0, 2, &[(0, 0), (1, 1)], &[]),
        page(2, 5, 1, 2, &[(4, 3), (5, 4), (6, 5), (7, 6)], &[]),
        page(2, 0, 2, 0, &[(2, 2)], &[0, 1]),
    ]
    .concat();
    assert_eq!(file_image(&mut tree), expected);
}

#[test]
fn update_into_existing() {
    let mut tree = BTree::new(Vec::new(), 2, 4, 16);
    put(&mut tree, 0, "01");
    put(&mut tree, 1, "01");
    put(&mut tree, 2, "01");
    put(&mut tree, 3, "01");
    put(&mut tree, 4, "01");
    put(&mut tree, 5, "01");
    put(&mut tree, 6, "01");
    put(&mut tree, 7, "01");
    assert!(tree.update(1, 2, Inserted_Data::NoData).is_err());
    let expected: Vec<u8> = [
        page(2, 5, 0, 2, &[(0, 0), (1, 1), (2, 2), (3, 3)], &[]),
        page(2, 5, 1, 2, &[(5, 5), (6, 6), (7, 7)], &[]),
        page(2, 0, 2, 0, &[(4, 4)], &[0, 1]),
    ]
    .concat();
    assert_eq!(file_image(&mut tree), expected);
}

#[test]
fn update_change_node() {
    let mut tree = BTree::new(Vec::new(), 2, 4, 16);
    put(&mut tree, 0, "00");
    put(&mut tree, 1, "01");
    put(&mut tree, 2, "02");
    put(&mut tree, 3, "03");
    put(&mut tree, 4, "04");
    put(&mut tree, 5, "05");
    put(&mut tree, 6, "06");
    put(&mut tree, 7, "07");
    assert!(tree.update(1, 8, Inserted_Data::NoData).is_ok());
    assert!(tree.update(3, 1, Inserted_Data::NewData(text("change data and key"))).is_ok());
    let expected: Vec<u8> = [
        page(2, 5, 0, 2, &[(0, 0), (1, 3), (2, 2)], &[]),
        page(2, 5, 1, 2, &[(5, 5), (6, 6), (7, 7), (8, 1)], &[]),
        page(2, 0, 2, 0, &[(4, 4)], &[0, 1]),
    ]
    .concat();
    assert_eq!(file_image(&mut tree), expected);
}

#[test]
fn update_in_place() {
    let mut tree = BTree::new(Vec::new(), 2, 4, 16);
    put(&mut tree, 0, "01");
    put(&mut tree, 1, "01");
    put(&mut tree, 2, "01");
    put(&mut tree, 3, "01");
    put(&mut tree, 4, "01");
    put(&mut tree, 5, "01");
    put(&mut tree, 6, "01");
    put(&mut tree, 7, "01");
    let after = Data::new(Some(Vec::from("after update")));
    assert!(tree.update(1, 1, Inserted_Data::NewData(after)).is_ok());
    let expected: Vec<u8> = [
        page(2, 5, 0, 2, &[(0, 0), (1, 1), (2, 2), (3, 3)], &[]),
        page(2, 5, 1, 2, &[(5, 5), (6, 6), (7, 7)], &[]),
        page(2, 0, 2, 0, &[(4, 4)], &[0, 1]),
    ]
    .concat();
    assert_eq!(file_image(&mut tree), expected);
}
