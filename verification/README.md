# btree_db

A B-tree database with verified logic. Records (a key and a data id) live in
fixed-size node pages of a node store; each record's data lives in a
fixed-size slot of a data store. Insertion, deletion and update keep the tree
balanced by evening out with a neighbour, splitting and merging pages.

Layout:

- `src/` — the library, verified with Verus:
  - `record.rs`, `data.rs`: records and their data, with their byte encodings;
  - `node.rs`: node pages, their encoding, and the operations on one node
    (search, insert with split and evening out, delete with merge);
  - `nodes_file.rs`, `data_file.rs`: the two stores (pages with a node
    cache; slots with a buffer);
  - `btree.rs`: the tree, its structural invariant and the public operations;
  - `contents.rs`: the records of the tree in key order, and the proofs that
    every operation keeps them sorted and changes them as it should;
  - `command.rs`, `text.rs`: reading instruction lines and writing text;
  - `session.rs`: carrying out one command on the tree.
- `app/` — the command-line program: arguments, standard input, printing,
  and the files behind the stores.
- `tests/` — tests of the library.
