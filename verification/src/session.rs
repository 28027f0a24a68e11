use vstd::prelude::*;

use crate::btree::{
    BTree, Inserted_Data, spec_data_written, spec_delete_layout, spec_found, spec_found_record, spec_room,
    spec_same_tree,
};
use crate::command::Command;
use crate::consts::PADDING_CHAR;
use crate::contents::{spec_has_key, spec_inserted, spec_moved, spec_ordered, spec_records, spec_removed};
use crate::data::{Data, DataError, spec_padded};
use crate::record::Record;

verus! {

/// What carrying out a command gave.
#[derive(Debug)]
pub enum Outcome {
    /// `l`: nothing changed; the counters are to be shown.
    Logged,
    /// `i`: the record was inserted.
    Inserted,
    /// `i`: refused, the key is taken.
    InsertRefused,
    /// `d`: the record was deleted.
    Deleted,
    /// `d`: refused, the key is not in the tree.
    DeleteRefused,
    /// `u`: the record was updated.
    Updated,
    /// `u`: refused, the old key is missing or the new one taken.
    UpdateRefused,
    /// `s`: the record found and what reading its data gave.
    Found(Record, Result<Data, DataError>),
    /// `s`: no record has the key.
    NotFound,
}

/// An update of `old_key` to `new_key` goes ahead: the old key is in the tree
/// and the new one is not, unless they are the same.
pub open spec fn spec_update_admitted(t: BTree, old_key: u64, new_key: u64) -> bool {
    let recs = spec_records(t.view());
    spec_has_key(recs, old_key) && (old_key == new_key || !spec_has_key(recs, new_key))
}

/// What a command needs beyond a well-formed, ordered tree: room in the node
/// store for the commands that change the tree, data of an insertion or
/// update that is not empty nor starts with padding, and the data slots that
/// the command reads or writes in range.
pub open spec fn spec_command_pre(t: BTree, command: Command) -> bool {
    let v = t.view();
    match command {
        Command::Insert { key, data } => {
            &&& spec_room(t)
            &&& data@.len() > 0
            &&& data@[0] != PADDING_CHAR
            &&& !spec_found(v, key) ==> t.data_file.in_range(t.data_file.next_id) && t.data_file.next_id
                < u64::MAX
        },
        Command::Update { old_key, new_key, data } => {
            &&& spec_room(t)
            &&& data@.len() > 0 ==> data@[0] != PADDING_CHAR
            &&& spec_found(v, old_key) && (old_key == new_key || !spec_found(v, new_key)) && data@.len() > 0
                ==> t.data_file.in_range(spec_found_record(v, old_key).data_id) && t.data_file.next_id
                < u64::MAX
        },
        Command::Search { key } => spec_found(v, key) ==> t.data_file.in_range(
            spec_found_record(v, key).data_id,
        ),
        Command::Delete { .. } => spec_room(t),
        Command::Log => true,
    }
}

/// `d` is what reading a data slot whose contents are `s` gives.
pub open spec fn spec_read_gives(d: Result<Data, DataError>, s: Result<Seq<u8>, DataError>) -> bool {
    match (d, s) {
        (Ok(x), Ok(y)) => x@ == y,
        (Err(e1), Err(e2)) => e1 == e2,
        _ => false,
    }
}

/// What carrying out `command` on `old` gives: the outcome `r` and the tree
/// `new`.
pub open spec fn spec_command_post(old: BTree, new: BTree, command: Command, r: Outcome) -> bool {
    let v = old.view();
    let recs = spec_records(v);
    match command {
        Command::Log => r is Logged && new == old,
        Command::Insert { key, data } => if spec_has_key(recs, key) {
            r is InsertRefused && spec_same_tree(old, new)
        } else {
            &&& r is Inserted
            &&& spec_inserted(recs, spec_records(new.view()), Record { key, data_id: old.data_file.next_id })
            &&& spec_data_written(old.data_file, new.data_file, old.data_file.next_id, spec_padded(data@))
            &&& new.data_file.next_id == old.data_file.next_id + 1
        },
        Command::Delete { key } => if spec_has_key(recs, key) {
            &&& r is Deleted
            &&& spec_removed(recs, spec_records(new.view()), key)
            &&& spec_delete_layout(v, new.view(), key)
        } else {
            r is DeleteRefused && spec_same_tree(old, new)
        },
        Command::Update { old_key, new_key, data } => if spec_update_admitted(old, old_key, new_key) {
            &&& r is Updated
            &&& old_key == new_key ==> new.view() == v
            &&& old_key != new_key ==> spec_moved(
                recs,
                spec_records(new.view()),
                old_key,
                Record { key: new_key, data_id: spec_found_record(v, old_key).data_id },
            )
            &&& data@.len() > 0 ==> spec_data_written(
                old.data_file,
                new.data_file,
                spec_found_record(v, old_key).data_id,
                spec_padded(data@),
            )
            &&& data@.len() == 0 ==> new.data_file == old.data_file
        } else {
            r is UpdateRefused && spec_same_tree(old, new)
        },
        Command::Search { key } => if spec_has_key(recs, key) {
            &&& new.view() == v
            &&& r matches Outcome::Found(rec, d) && rec == spec_found_record(v, key) && rec.key == key
                && spec_read_gives(d, old.data_file.spec_read(rec.data_id))
        } else {
            r is NotFound && spec_same_tree(old, new)
        },
    }
}

/// Carries out one command on the tree.
pub fn run_command(btree: &mut BTree, command: Command) -> (r: Outcome)
    requires
        old(btree).wf(),
        spec_ordered(old(btree).view()),
        spec_command_pre(*old(btree), command),
    ensures
        final(btree).wf(),
        spec_ordered(final(btree).view()),
        spec_command_post(*old(btree), *final(btree), command, r),
        crate::btree::spec_store_frame(*old(btree), *final(btree)),
{
    let ghost v = btree.view();
    proof {
        if let Some(root) = v.root {
            assert(v.in_tree(root));
        }
    }
    match command {
        Command::Log => {
            proof {
                crate::btree::lemma_frame_kept(*old(btree), *btree);
            }
            Outcome::Logged
        },
        Command::Insert { key, data } => {
            let d = Data::try_from(data.as_slice());
            match d {
                Ok(d) => {
                    let ghost dv = d@;
                    match btree.insert(key, Inserted_Data::NewData(d)) {
                        Ok(_) => Outcome::Inserted,
                        Err(_) => {
                            proof {
                                crate::btree::lemma_wf_same_tree(*old(btree), *btree);
                            }
                            Outcome::InsertRefused
                        },
                    }
                },
                Err(_) => {
                    proof {
                        assert(false);
                    }
                    Outcome::InsertRefused
                },
            }
        },
        Command::Delete { key } => {
            match btree.delete(key) {
                Ok(_) => Outcome::Deleted,
                Err(_) => {
                    proof {
                        crate::btree::lemma_wf_same_tree(*old(btree), *btree);
                    }
                    Outcome::DeleteRefused
                },
            }
        },
        Command::Update { old_key, new_key, data } => {
            let new_data = if data.len() > 0 {
                match Data::try_from(data.as_slice()) {
                    Ok(d) => Inserted_Data::NewData(d),
                    Err(_) => {
                        proof {
                            assert(false);
                        }
                        Inserted_Data::NoData
                    },
                }
            } else {
                Inserted_Data::NoData
            };
            match btree.update(old_key, new_key, new_data) {
                Ok(_) => Outcome::Updated,
                Err(_) => {
                    proof {
                        crate::btree::lemma_wf_same_tree(*old(btree), *btree);
                    }
                    Outcome::UpdateRefused
                },
            }
        },
        Command::Search { key } => {
            match btree.search(key) {
                Ok((record, _)) => {
                    let ghost b1 = *btree;
                    let d = btree.data_file.get_data(&record);
                    proof {
                        crate::btree::lemma_frame_kept(b1, *btree);
                        crate::btree::lemma_frame_trans(*old(btree), b1, *btree);
                        assert(btree.view().nodes =~= b1.view().nodes);
                        assert forall|id: u64| #[trigger] btree.in_tree(id) implies btree.nodes_file.readable(id)
                            && id < btree.nodes_file.next_id by {
                            assert(b1.in_tree(id));
                        }
                    }
                    Outcome::Found(record, d)
                },
                Err(_) => {
                    proof {
                        crate::btree::lemma_wf_same_tree(*old(btree), *btree);
                    }
                    Outcome::NotFound
                },
            }
        },
    }
}

} // verus!
