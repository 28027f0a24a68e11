use btree_db::btree::{BTree, Inserted_Data};
use btree_db::command::{generate_instructions, instruction_line, parse_command, parse_u64, Command, ParseError};
use btree_db::data::{Data, DataError};
use btree_db::node::Node;
use btree_db::record::Record;
use btree_db::session::{run_command, Outcome};

fn tree(order: usize) -> BTree {
    BTree::new(Vec::new(), order, 2, 3)
}

fn letters(s: &str) -> Data {
    Data::try_from(s.as_bytes()).unwrap()
}

fn data_id_of(t: &mut BTree, key: u64) -> Option<u64> {
    match t.search(key) {
        Ok((record, _)) => {
            assert_eq!(record.key, key);
            Some(record.data_id)
        }
        Err(_) => None,
    }
}

#[test]
fn every_inserted_key_is_found_with_its_data_id() {
    let mut t = tree(2);
    let keys: Vec<u64> = vec![50, 10, 90, 30, 70, 20, 80, 40, 60, 0, 100, 15, 35, 55, 75, 95, 5, 25];
    for (i, &k) in keys.iter().enumerate() {
        t.insert(k, Inserted_Data::NewData(letters("x"))).unwrap();
        assert_eq!(t.data_file.next_id, i as u64 + 1);
    }
    for (i, &k) in keys.iter().enumerate() {
        assert_eq!(data_id_of(&mut t, k), Some(i as u64));
    }
    for k in [1u64, 11, 51, 99, 101] {
        assert_eq!(data_id_of(&mut t, k), None);
    }
}

#[test]
fn inserting_a_present_key_is_refused_and_keeps_the_tree() {
    let mut t = tree(2);
    for k in 0..12u64 {
        t.insert(k, Inserted_Data::NoData).unwrap();
    }
    t.nodes_file.write_cache();
    let before = t.nodes_file.pages.concat();
    assert!(t.insert(7, Inserted_Data::NewData(letters("y"))).is_err());
    t.nodes_file.write_cache();
    assert_eq!(t.nodes_file.pages.concat(), before);
    assert_eq!(t.data_file.next_id, 0);
}

#[test]
fn deleted_keys_are_gone_and_the_others_stay() {
    let mut t = tree(2);
    for k in 0..30u64 {
        t.insert(k, Inserted_Data::ExistingData(100 + k)).unwrap();
    }
    for k in (0..30u64).filter(|k| k % 3 == 0) {
        t.delete(k).unwrap();
    }
    for k in 0..30u64 {
        let expected = if k % 3 == 0 { None } else { Some(100 + k) };
        assert_eq!(data_id_of(&mut t, k), expected);
    }
    assert!(t.delete(3).is_err());
}

#[test]
fn deleting_from_an_empty_tree_is_refused() {
    let mut t = tree(2);
    assert!(t.delete(4).is_err());
    assert_eq!(t.search(4), Err((0, 0)));
}

#[test]
fn update_moves_the_record_and_keeps_its_data_slot() {
    let mut t = tree(2);
    for k in 0..10u64 {
        t.insert(k, Inserted_Data::NewData(letters("a"))).unwrap();
    }
    let id = data_id_of(&mut t, 4).unwrap();
    t.update(4, 40, Inserted_Data::NewData(letters("moved"))).unwrap();
    assert_eq!(data_id_of(&mut t, 4), None);
    assert_eq!(data_id_of(&mut t, 40), Some(id));
    let mut record = Record::new(40, id);
    let read = record.get_data(&mut t).unwrap();
    assert_eq!(read.trimmed_letters(), b"moved".to_vec());
}

#[test]
fn update_is_refused_for_a_missing_or_taken_key() {
    let mut t = tree(2);
    for k in 0..6u64 {
        t.insert(k, Inserted_Data::NoData).unwrap();
    }
    assert!(t.update(9, 10, Inserted_Data::NoData).is_err());
    assert!(t.update(1, 2, Inserted_Data::NoData).is_err());
    assert!(t.update(1, 1, Inserted_Data::NoData).is_ok());
    assert_eq!(data_id_of(&mut t, 1), Some(0));
}

#[test]
fn search_in_a_root_leaf_gives_the_insert_position() {
    let mut t = tree(3);
    for k in [10u64, 20, 30] {
        t.insert(k, Inserted_Data::NoData).unwrap();
    }
    assert_eq!(t.search(5), Err((0, 0)));
    assert_eq!(t.search(25), Err((2, 0)));
    assert_eq!(t.search(35), Err((3, 0)));
    assert_eq!(t.search(20), Ok((Record::new(20, 0), 0)));
}

#[test]
fn smallest_and_largest_in_subtree() {
    let mut t = tree(2);
    for k in 0..20u64 {
        t.insert(k * 2, Inserted_Data::ExistingData(k)).unwrap();
    }
    let root_id = t.root_id.unwrap();
    let root = t.get_node(root_id);
    let (smallest, _) = root.get_smallest_in_subtree(&mut t);
    let (largest, _) = root.get_largest_in_subtree(&mut t);
    assert_eq!(smallest, Record::new(0, 0));
    assert_eq!(largest, Record::new(38, 19));
}

#[test]
fn written_data_reads_back() {
    let mut t = tree(2);
    let mut record = Record::new(3, 5);
    record.write_data(&mut t, &letters("hello"));
    assert_eq!(t.data_file.next_id, 1);
    let read = record.get_data(&mut t).unwrap();
    assert_eq!(read.trimmed_letters(), b"hello".to_vec());
    let mut empty = Record::new(4, 6);
    assert_eq!(empty.get_data(&mut t), Err(DataError::EmptyLetters));
}

#[test]
fn data_from_bytes_refuses_leading_padding() {
    assert_eq!(Data::try_from(&[0u8, 65][..]), Err(DataError::EmptyLetters));
    let d = Data::try_from(b"abc").unwrap();
    assert_eq!(d.to_bytes().len(), 30);
    assert_eq!(d.trimmed_letters(), b"abc".to_vec());
    let long = Data::new(Some(vec![b'z'; 40]));
    assert_eq!(long.to_bytes(), vec![b'z'; 30]);
}

#[test]
fn random_data_is_made_of_allowed_letters() {
    for _ in 0..20 {
        let d = Data::random();
        let l = d.trimmed_letters();
        assert!(!l.is_empty() && l.len() < 30);
        assert!(l.iter().all(|c| c.is_ascii_alphanumeric() || *c == b' '));
    }
}

#[test]
fn record_bytes_round_trip() {
    let r = Record::new(0x0102030405060708, 42);
    let b = r.to_bytes();
    assert_eq!(b[0], 8);
    assert_eq!(b[8], 42);
    assert_eq!(Record::from_bytes(&b), r);
    assert_eq!(r.data_address(), 42 * 30);
}

#[test]
fn node_bytes_round_trip() {
    let mut n = Node::new(false, 7, 2);
    n.parent_node_id = Some(3);
    n.keys = vec![Record::new(5, 1), Record::new(9, 2)];
    n.children = vec![Some(10), Some(11), Some(12)];
    let bytes = n.to_bytes(2);
    assert_eq!(bytes.len(), Node::byte_size(2));
    assert_eq!(bytes[0], 4);
    assert_eq!(Node::from_bytes(&bytes, 2), n);
    let mut leaf = Node::new(true, 1, 2);
    leaf.keys = vec![Record::new(2, 2)];
    leaf.children = vec![None, None];
    let back = Node::from_bytes(&leaf.to_bytes(2), 2);
    assert_eq!(back, leaf);
    assert_eq!(back.record_count(), 1);
}

#[test]
fn node_byte_size_by_order() {
    assert_eq!(Node::byte_size(3), 201);
    assert_eq!(Node::byte_size(2), 25 + 5 * 16 + 6 * 8);
}

#[test]
fn keys_are_shown_in_order() {
    let mut n = Node::new(true, 0, 2);
    assert_eq!(n.keys_string_pretty(), "");
    n.keys = vec![Record::new(1, 0), Record::new(22, 7), Record::new(305, 14)];
    assert_eq!(n.keys_string_pretty(), "[1: 0][22: 7][305: 14]");
}

#[test]
fn numbers_parse_as_unsigned_decimal() {
    assert_eq!(parse_u64(b"0"), Some(0));
    assert_eq!(parse_u64(b"+17"), Some(17));
    assert_eq!(parse_u64(b"18446744073709551615"), Some(u64::MAX));
    assert_eq!(parse_u64(b"18446744073709551616"), None);
    assert_eq!(parse_u64(b""), None);
    assert_eq!(parse_u64(b"+"), None);
    assert_eq!(parse_u64(b"-1"), None);
    assert_eq!(parse_u64(b"1a"), None);
}

#[test]
fn commands_parse_from_lines() {
    assert_eq!(parse_command(b"l"), Ok(Command::Log));
    assert_eq!(parse_command(b"i 5 ab cd"), Ok(Command::Insert { key: 5, data: b" ab cd".to_vec() }));
    assert_eq!(parse_command(b"i 5"), Ok(Command::Insert { key: 5, data: Vec::new() }));
    assert_eq!(parse_command(b"d 12 "), Ok(Command::Delete { key: 12 }));
    assert_eq!(parse_command(b"s 3"), Ok(Command::Search { key: 3 }));
    assert_eq!(parse_command(b"u 1 2"), Ok(Command::Update { old_key: 1, new_key: 2, data: Vec::new() }));
    assert_eq!(parse_command(b"u 1 2 x"), Ok(Command::Update { old_key: 1, new_key: 2, data: b" x".to_vec() }));
}

#[test]
fn bad_lines_are_refused() {
    assert_eq!(parse_command(b"i"), Err(ParseError::MissingKey));
    assert_eq!(parse_command(b"i  5 a"), Err(ParseError::BadNumber));
    assert_eq!(parse_command(b"d x"), Err(ParseError::BadNumber));
    assert_eq!(parse_command(b"u 1"), Err(ParseError::MissingNewKey));
    assert_eq!(parse_command(b"u"), Err(ParseError::MissingOldKey));
    assert_eq!(parse_command(b"x 1"), Err(ParseError::UnknownOperation));
}

#[test]
fn generated_instructions_parse_back() {
    for _ in 0..30 {
        let line = generate_instructions(10, b"idu");
        assert!(line.ends_with('\n'));
        let body = line.trim_end_matches('\n');
        match parse_command(body.as_bytes()).unwrap() {
            Command::Insert { key, data } => {
                assert!(key < 10);
                assert!(data.len() >= 2 && data.len() <= 30);
            }
            Command::Delete { key } => assert!(key < 10),
            Command::Update { old_key, new_key, data } => {
                assert!(old_key < 10 && new_key < 10);
                assert!(data.len() >= 2);
            }
            other => panic!("unexpected command {:?}", other),
        }
    }
}

#[test]
fn records_are_described_with_their_data_slot() {
    assert_eq!(
        Record::new(12, 3).to_string(),
        "key:    12, data: :_<30 | data_id: 3, data_address: 90"
    );
    assert_eq!(
        Record::new(123456, 0).to_string(),
        "key: 123456, data: :_<30 | data_id: 0, data_address: 0"
    );
}

#[test]
fn instruction_lines_are_written_exactly() {
    assert_eq!(instruction_line(b'i', 12, 0, b"abc"), "i 12 abc\n");
    assert_eq!(instruction_line(b'd', 7, 0, b"a"), "d 7 \n");
    assert_eq!(instruction_line(b'u', 1, 20, b"x Y"), "u 1 20 x Y\n");
}

#[test]
fn deleting_the_last_record_empties_the_tree() {
    let mut t = tree(2);
    t.insert(1, Inserted_Data::NewData(letters("ab"))).unwrap();
    assert!(t.delete(1).is_ok());
    assert_eq!(t.root_id, None);
    assert_eq!(data_id_of(&mut t, 1), None);
    assert!(t.delete(1).is_err());
    t.insert(4, Inserted_Data::NewData(letters("cd"))).unwrap();
    assert_eq!(t.root_id, Some(1));
    assert_eq!(data_id_of(&mut t, 4), Some(1));
}

#[test]
fn order_one_deletes_from_a_leaf_that_keeps_a_record() {
    let mut t = tree(1);
    t.insert(7, Inserted_Data::NewData(letters("ab"))).unwrap();
    t.insert(9, Inserted_Data::NewData(letters("cd"))).unwrap();
    assert!(t.delete(9).is_ok());
    assert_eq!(data_id_of(&mut t, 7), Some(0));
    assert_eq!(data_id_of(&mut t, 9), None);
    let root = t.get_node(t.root_id.unwrap());
    assert!(root.is_leaf);
    assert_eq!(root.keys, vec![Record::new(7, 0)]);
}

#[test]
fn order_one_update_refused_when_the_new_key_is_taken() {
    let mut t = tree(1);
    t.insert(1, Inserted_Data::NewData(letters("ab"))).unwrap();
    t.insert(2, Inserted_Data::NewData(letters("cd"))).unwrap();
    t.insert(3, Inserted_Data::NewData(letters("ef"))).unwrap();
    assert!(t.update(1, 3, Inserted_Data::NoData).is_err());
    assert_eq!(data_id_of(&mut t, 1), Some(0));
    assert_eq!(data_id_of(&mut t, 3), Some(2));
}

#[test]
fn order_one_emptied_leaf_merges_and_the_root_collapses() {
    let mut t = tree(1);
    for k in [1u64, 2, 3] {
        t.insert(k, Inserted_Data::NewData(letters("ab"))).unwrap();
    }
    assert_eq!(t.root_id, Some(2));
    assert!(t.delete(1).is_ok());
    assert_eq!(t.root_id, Some(0));
    let root = t.get_node(0);
    assert!(root.is_leaf);
    assert_eq!(root.parent_node_id, None);
    assert_eq!(root.keys, vec![Record::new(2, 1), Record::new(3, 2)]);
    assert_eq!(data_id_of(&mut t, 1), None);
}

#[test]
fn order_one_emptied_leaf_evens_out_with_its_neighbour() {
    let mut t = tree(1);
    for k in [1u64, 2, 3, 4] {
        t.insert(k, Inserted_Data::NewData(letters("ab"))).unwrap();
    }
    assert!(t.delete(1).is_ok());
    assert_eq!(t.root_id, Some(2));
    assert_eq!(t.get_node(2).keys, vec![Record::new(3, 2)]);
    assert_eq!(t.get_node(0).keys, vec![Record::new(2, 1)]);
    assert_eq!(t.get_node(1).keys, vec![Record::new(4, 3)]);
    assert_eq!(t.get_node(2).children, vec![Some(0), Some(1)]);
}

#[test]
fn nodes_leaving_the_tree_are_stored_as_deleted() {
    let mut t = tree(1);
    for k in [1u64, 2, 3] {
        t.insert(k, Inserted_Data::NewData(letters("ab"))).unwrap();
    }
    assert!(t.delete(1).is_ok());
    assert!(t.get_node(1).is_deleted);
    assert!(t.get_node(2).is_deleted);
    assert!(!t.get_node(0).is_deleted);
}

#[test]
fn levels_and_record_count_follow_the_tree() {
    let mut t = tree(1);
    assert_eq!(t.levels(), 0);
    assert_eq!(t.record_count(), Some(0));
    for k in [5u64, 1, 9, 3, 7, 2] {
        t.insert(k, Inserted_Data::NewData(letters("ab"))).unwrap();
    }
    assert_eq!(t.record_count(), Some(6));
    assert_eq!(t.levels(), 2);
    t.delete(5).unwrap();
    assert_eq!(t.record_count(), Some(5));
}

#[test]
fn commands_run_on_the_tree() {
    let mut t = tree(2);
    assert!(matches!(run_command(&mut t, Command::Insert { key: 4, data: b" ab".to_vec() }), Outcome::Inserted));
    assert!(matches!(run_command(&mut t, Command::Insert { key: 4, data: b" cd".to_vec() }), Outcome::InsertRefused));
    match run_command(&mut t, Command::Search { key: 4 }) {
        Outcome::Found(record, data) => {
            assert_eq!(record, Record::new(4, 0));
            assert_eq!(data.unwrap().trimmed_letters(), b" ab".to_vec());
        }
        other => panic!("unexpected outcome {:?}", other),
    }
    assert!(matches!(run_command(&mut t, Command::Update { old_key: 4, new_key: 6, data: Vec::new() }), Outcome::Updated));
    assert!(matches!(run_command(&mut t, Command::Search { key: 4 }), Outcome::NotFound));
    assert!(matches!(run_command(&mut t, Command::Update { old_key: 4, new_key: 7, data: Vec::new() }), Outcome::UpdateRefused));
    assert!(matches!(run_command(&mut t, Command::Delete { key: 6 }), Outcome::Deleted));
    assert!(matches!(run_command(&mut t, Command::Delete { key: 6 }), Outcome::DeleteRefused));
    assert!(matches!(run_command(&mut t, Command::Log), Outcome::Logged));
}
