use btree_db::btree::{BTree, Inserted_Data};
use btree_db::data::Data;
use btree_db::record::Record;

/// Data made from a short text.
fn text(s: &str) -> Data {
    Data::try_from(s.as_bytes()).unwrap()
}

/// Inserts `key` with new data made from `s`, which must succeed.
fn put(tree: &mut BTree, key: u64, s: &str) {
    tree.insert(key, Inserted_Data::NewData(text(s))).unwrap();
}

#[test]
fn search_empty() {
    let mut tree = BTree::new(Vec::new(), 3, 4, 16);
    assert_eq!(tree.search(1), Err((0, 0)));
}

#[test]
fn search_root_find() {
    let mut tree = BTree::new(Vec::new(), 3, 4, 16);
    put(&mut tree, 1, "01");
    put(&mut tree, 2, "02");
    put(&mut tree, 3, "03");
    assert_eq!(tree.search(2), Ok((Record::new(2, 1), 0)));
}

#[test]
fn search_root_not_found() {
    let mut tree = BTree::new(Vec::new(), 3, 4, 16);
    put(&mut tree, 1, "01");
    put(&mut tree, 3, "03");
    put(&mut tree, 4, "04");
    assert_eq!(tree.search(2), Err((1, 0)));
}
