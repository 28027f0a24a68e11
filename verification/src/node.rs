use vstd::prelude::*;
use vstd::bytes::{spec_u64_from_le_bytes, spec_u64_to_le_bytes, u64_from_le_bytes, u64_to_le_bytes};
use vstd::slice::slice_subrange;

use crate::consts::RECORD_SIZE;
use crate::nodes_file::spec_entry_kept;
use crate::btree::{BTree, TreeView, spec_child, spec_with_parent, spec_same_tree};
use crate::record::{Record, spec_record_bytes, spec_record_from_bytes, lemma_record_bytes_roundtrip};

verus! {

/// One page of the B-tree: up to `2 * order + 1` records, sorted by key, and
/// the ids of the pages between and around them.
#[derive(Debug, PartialEq, Eq, Hash)]
pub struct Node {
    pub id: u64,
    pub parent_node_id: Option<u64>,
    pub is_leaf: bool,
    pub is_deleted: bool,
    pub keys: Vec<Record>,
    pub children: Vec<Option<u64>>,
}

/// What a node holds, as mathematical values.
pub struct NodeView {
    pub id: u64,
    pub parent_node_id: Option<u64>,
    pub is_leaf: bool,
    pub is_deleted: bool,
    pub keys: Seq<Record>,
    pub children: Seq<Option<u64>>,
}

impl View for Node {
    type V = NodeView;

    open spec fn view(&self) -> NodeView {
        NodeView {
            id: self.id,
            parent_node_id: self.parent_node_id,
            is_leaf: self.is_leaf,
            is_deleted: self.is_deleted,
            keys: self.keys@,
            children: self.children@,
        }
    }
}

/// Most records a page has room for.
pub open spec fn spec_max_keys(order: nat) -> nat {
    2 * order + 1
}

/// Bytes of one page: flags, id, parent id, key count, the record area and
/// the child area.
pub open spec fn spec_byte_size(order: nat) -> nat {
    25 + (2 * order + 1) * (RECORD_SIZE as nat) + (2 * order + 2) * 8
}

/// Offset of the child area in a page.
pub open spec fn spec_children_offset(order: nat) -> nat {
    25 + (2 * order + 1) * (RECORD_SIZE as nat)
}

/// The flags byte: bit 0 leaf, bit 1 deleted, bit 2 has a parent.
pub open spec fn spec_flags(is_leaf: bool, is_deleted: bool, has_parent: bool) -> u8 {
    (if is_leaf { 1u8 } else { 0u8 }) | (if is_deleted { 2u8 } else { 0u8 }) | (if has_parent {
        4u8
    } else {
        0u8
    })
}

/// `s` cut or zero-extended to exactly `n` bytes.
pub open spec fn spec_pad_zeros(s: Seq<u8>, n: int) -> Seq<u8> {
    if s.len() >= n {
        s.subrange(0, n)
    } else {
        s + Seq::new((n - s.len()) as nat, |i: int| 0u8)
    }
}

/// The records one after another, 16 bytes each.
pub open spec fn spec_records_bytes(keys: Seq<Record>) -> Seq<u8>
    decreases keys.len(),
{
    if keys.len() == 0 {
        Seq::empty()
    } else {
        spec_records_bytes(keys.drop_last()) + spec_record_bytes(keys.last())
    }
}

/// The word stored for a child pointer: its id, or 0 for none.
pub open spec fn spec_child_word(c: Option<u64>) -> u64 {
    match c {
        Some(id) => id,
        None => 0,
    }
}

/// The child pointers one after another, 8 bytes each.
pub open spec fn spec_children_bytes(children: Seq<Option<u64>>) -> Seq<u8>
    decreases children.len(),
{
    if children.len() == 0 {
        Seq::empty()
    } else {
        spec_children_bytes(children.drop_last()) + spec_u64_to_le_bytes(
            spec_child_word(children.last()),
        )
    }
}

/// The page image of a node.
pub open spec fn spec_node_bytes(n: NodeView, order: nat) -> Seq<u8> {
    seq![spec_flags(n.is_leaf, n.is_deleted, n.parent_node_id is Some)] + spec_u64_to_le_bytes(n.id)
        + spec_u64_to_le_bytes(spec_child_word(n.parent_node_id)) + spec_u64_to_le_bytes(
        n.keys.len() as u64,
    ) + spec_pad_zeros(spec_records_bytes(n.keys), (2 * order + 1) * RECORD_SIZE as int)
        + spec_pad_zeros(spec_children_bytes(n.children), (2 * order + 2) * 8 as int)
}

/// The key count that a page image states.
pub open spec fn spec_key_count(b: Seq<u8>) -> u64 {
    spec_u64_from_le_bytes(b.subrange(17, 25))
}

/// A page image can be read: the records and child pointers that its key
/// count announces lie inside it.
pub open spec fn spec_bytes_readable(b: Seq<u8>, order: nat) -> bool {
    &&& b.len() >= 25
    &&& 25 + spec_key_count(b) * RECORD_SIZE <= b.len()
    &&& spec_children_offset(order) + 8 * (spec_key_count(b) + 1) <= b.len()
}

/// The node that a page image describes.
pub open spec fn spec_node_from_bytes(b: Seq<u8>, order: nat) -> NodeView {
    let flags = b[0];
    let is_leaf = (flags & 1u8) != 0u8;
    let kc = spec_key_count(b);
    let c0 = spec_children_offset(order);
    NodeView {
        id: spec_u64_from_le_bytes(b.subrange(1, 9)),
        parent_node_id: if (flags & 4u8) != 0u8 {
            Some(spec_u64_from_le_bytes(b.subrange(9, 17)))
        } else {
            None
        },
        is_leaf,
        is_deleted: (flags & 2u8) != 0u8,
        keys: Seq::new(
            kc as nat,
            |i: int| spec_record_from_bytes(b.subrange(25 + 16 * i, 25 + 16 * i + 16)),
        ),
        children: Seq::new(
            (kc + 1) as nat,
            |i: int|
                if is_leaf {
                    None
                } else {
                    Some(spec_u64_from_le_bytes(b.subrange(c0 + 8 * i, c0 + 8 * i + 8)))
                },
        ),
    }
}

/// What a node becomes once written to a page and read back: one child
/// pointer more than records, none in a leaf and an id (0 for a missing one)
/// in an inner node.
pub open spec fn spec_normalize(n: NodeView) -> NodeView {
    NodeView {
        children: Seq::new(
            n.keys.len() + 1,
            |i: int|
                if n.is_leaf {
                    None
                } else {
                    Some(
                        if i < n.children.len() {
                            spec_child_word(n.children[i])
                        } else {
                            0
                        },
                    )
                },
        ),
        ..n
    }
}

/// A node that a page holds without change: one child pointer more than
/// records, all absent in a leaf, all present in an inner node.
pub open spec fn spec_well_shaped(n: NodeView) -> bool {
    &&& n.children.len() == n.keys.len() + 1
    &&& forall|i: int| 0 <= i < n.children.len() ==> (#[trigger] n.children[i] is Some) != n.is_leaf
}

/// A node in page shape is its own page shape.
pub proof fn lemma_normalize_well_shaped(n: NodeView)
    requires
        spec_well_shaped(n),
    ensures
        spec_normalize(n) == n,
{
    let nn = spec_normalize(n);
    assert forall|i: int| 0 <= i < n.children.len() implies #[trigger] nn.children[i]
        == n.children[i] by {
        assert(n.children[i] is Some != n.is_leaf);
    }
    assert(nn.children =~= n.children);
}

/// A page image is always `byte_size` bytes long.
pub proof fn lemma_node_bytes_len(n: NodeView, order: nat)
    ensures
        spec_node_bytes(n, order).len() == spec_byte_size(order),
{
    vstd::bytes::lemma_auto_spec_u64_to_from_le_bytes();
}

proof fn lemma_flags(a: bool, b: bool, c: bool)
    ensures
        ((spec_flags(a, b, c) & 1u8) != 0u8) == a,
        ((spec_flags(a, b, c) & 2u8) != 0u8) == b,
        ((spec_flags(a, b, c) & 4u8) != 0u8) == c,
{
    let x: u8 = if a { 1u8 } else { 0u8 };
    let y: u8 = if b { 2u8 } else { 0u8 };
    let z: u8 = if c { 4u8 } else { 0u8 };
    assert((x == 0u8 || x == 1u8) && (y == 0u8 || y == 2u8) && (z == 0u8 || z == 4u8) ==> (((x
        | y | z) & 1u8) != 0u8) == (x == 1u8) && (((x | y | z) & 2u8) != 0u8) == (y == 2u8) && (((x
        | y | z) & 4u8) != 0u8) == (z == 4u8)) by (bit_vector);
}

proof fn lemma_zero_word()
    ensures
        spec_u64_from_le_bytes(Seq::new(8, |i: int| 0u8)) == 0,
{
    vstd::bytes::lemma_auto_spec_u64_to_from_le_bytes();
    vstd::bytes::spec_u64_to_le_bytes_to_open(0);
    assert((0u64 & 0xff) as u8 == 0 && ((0u64 >> 8) & 0xff) as u8 == 0 && ((0u64 >> 16) & 0xff) as u8
        == 0 && ((0u64 >> 24) & 0xff) as u8 == 0 && ((0u64 >> 32) & 0xff) as u8 == 0 && ((0u64 >> 40)
        & 0xff) as u8 == 0 && ((0u64 >> 48) & 0xff) as u8 == 0 && ((0u64 >> 56) & 0xff) as u8 == 0)
        by (bit_vector);
    assert(spec_u64_to_le_bytes(0) =~= Seq::new(8, |i: int| 0u8));
}

proof fn lemma_records_bytes(keys: Seq<Record>)
    ensures
        spec_records_bytes(keys).len() == keys.len() * 16,
        forall|i: int|
            0 <= i < keys.len() ==> #[trigger] spec_records_bytes(keys).subrange(16 * i, 16 * i + 16)
                == spec_record_bytes(keys[i]),
    decreases keys.len(),
{
    if keys.len() > 0 {
        let p = keys.drop_last();
        lemma_records_bytes(p);
        lemma_record_bytes_roundtrip(keys.last());
        let s = spec_records_bytes(keys);
        assert forall|i: int| 0 <= i < keys.len() implies #[trigger] s.subrange(16 * i, 16 * i + 16)
            == spec_record_bytes(keys[i]) by {
            if i < keys.len() - 1 {
                assert(s.subrange(16 * i, 16 * i + 16) =~= spec_records_bytes(p).subrange(
                    16 * i,
                    16 * i + 16,
                ));
            } else {
                assert(s.subrange(16 * i, 16 * i + 16) =~= spec_record_bytes(keys.last()));
            }
        }
    }
}

proof fn lemma_children_bytes(children: Seq<Option<u64>>)
    ensures
        spec_children_bytes(children).len() == children.len() * 8,
        forall|i: int|
            0 <= i < children.len() ==> #[trigger] spec_children_bytes(children).subrange(
                8 * i,
                8 * i + 8,
            ) == spec_u64_to_le_bytes(spec_child_word(children[i])),
    decreases children.len(),
{
    vstd::bytes::lemma_auto_spec_u64_to_from_le_bytes();
    if children.len() > 0 {
        let p = children.drop_last();
        lemma_children_bytes(p);
        let s = spec_children_bytes(children);
        assert(spec_u64_to_le_bytes(spec_child_word(children.last())).len() == 8);
        assert forall|i: int| 0 <= i < children.len() implies #[trigger] s.subrange(
            8 * i,
            8 * i + 8,
        ) == spec_u64_to_le_bytes(spec_child_word(children[i])) by {
            if i < children.len() - 1 {
                assert(s.subrange(8 * i, 8 * i + 8) =~= spec_children_bytes(p).subrange(
                    8 * i,
                    8 * i + 8,
                ));
            } else {
                assert(s.subrange(8 * i, 8 * i + 8) =~= spec_u64_to_le_bytes(
                    spec_child_word(children.last()),
                ));
            }
        }
    }
}

/// Writing a node to a page and reading the page back gives the node in its
/// page shape; a well-shaped node comes back unchanged.
pub proof fn lemma_node_bytes_roundtrip(n: NodeView, order: nat)
    requires
        n.keys.len() <= spec_max_keys(order),
        n.keys.len() <= u64::MAX,
    ensures
        spec_node_bytes(n, order).len() == spec_byte_size(order),
        spec_bytes_readable(spec_node_bytes(n, order), order),
        spec_node_from_bytes(spec_node_bytes(n, order), order) == spec_normalize(n),
        spec_well_shaped(n) ==> spec_normalize(n) == n,
{
    vstd::bytes::lemma_auto_spec_u64_to_from_le_bytes();
    lemma_records_bytes(n.keys);
    lemma_children_bytes(n.children);
    lemma_flags(n.is_leaf, n.is_deleted, n.parent_node_id is Some);
    lemma_zero_word();
    let b = spec_node_bytes(n, order);
    let rlen = (2 * order + 1) * RECORD_SIZE as int;
    let clen = (2 * order + 2) * 8 as int;
    let r = spec_pad_zeros(spec_records_bytes(n.keys), rlen);
    let c = spec_pad_zeros(spec_children_bytes(n.children), clen);
    assert(r.len() == rlen);
    assert(c.len() == clen);
    let kc = n.keys.len() as u64;
    assert(b.subrange(1, 9) =~= spec_u64_to_le_bytes(n.id));
    assert(b.subrange(9, 17) =~= spec_u64_to_le_bytes(spec_child_word(n.parent_node_id)));
    assert(b.subrange(17, 25) =~= spec_u64_to_le_bytes(kc));
    assert(spec_key_count(b) == kc);
    let d = spec_node_from_bytes(b, order);
    assert forall|i: int| 0 <= i < n.keys.len() implies #[trigger] d.keys[i] == n.keys[i] by {
        assert(16 * i + 16 <= n.keys.len() * 16) by (nonlinear_arith)
            requires
                0 <= i < n.keys.len(),
        ;
        assert(n.keys.len() * 16 <= rlen) by (nonlinear_arith)
            requires
                n.keys.len() <= 2 * order + 1,
                rlen == (2 * order + 1) * 16,
        ;
        assert(b.subrange(25 + 16 * i, 25 + 16 * i + 16) =~= r.subrange(16 * i, 16 * i + 16));
        assert(r.subrange(16 * i, 16 * i + 16) =~= spec_records_bytes(n.keys).subrange(
            16 * i,
            16 * i + 16,
        ));
        assert(spec_records_bytes(n.keys).subrange(16 * i, 16 * i + 16) == spec_record_bytes(
            n.keys[i],
        ));
        lemma_record_bytes_roundtrip(n.keys[i]);
        assert(d.keys[i] == spec_record_from_bytes(b.subrange(25 + 16 * i, 25 + 16 * i + 16)));
    }
    assert(d.keys =~= n.keys);
    let c0 = spec_children_offset(order);
    let nn = spec_normalize(n);
    assert forall|i: int| 0 <= i < n.keys.len() + 1 implies #[trigger] d.children[i]
        == nn.children[i] by {
        assert(8 * i + 8 <= clen) by (nonlinear_arith)
            requires
                0 <= i < n.keys.len() + 1,
                n.keys.len() <= 2 * order + 1,
                clen == (2 * order + 2) * 8,
        ;
        if i < n.children.len() {
            assert(8 * i + 8 <= n.children.len() * 8) by (nonlinear_arith)
                requires
                    0 <= i < n.children.len(),
            ;
        }
        assert(b.subrange(c0 + 8 * i, c0 + 8 * i + 8) =~= c.subrange(8 * i, 8 * i + 8));
        if i < n.children.len() {
            assert(c.subrange(8 * i, 8 * i + 8) =~= spec_children_bytes(n.children).subrange(
                8 * i,
                8 * i + 8,
            ));
        } else {
            assert(c.subrange(8 * i, 8 * i + 8) =~= Seq::new(8, |j: int| 0u8));
        }
    }
    assert(d.children =~= nn.children);
    if spec_well_shaped(n) {
        assert forall|i: int| 0 <= i < n.children.len() implies #[trigger] nn.children[i]
            == n.children[i] by {
            assert(n.children[i] is Some != n.is_leaf);
        }
        assert(nn.children =~= n.children);
    }
}

impl Clone for Node {
    fn clone(&self) -> (n: Self)
        ensures
            n@ == self@,
    {
        Node {
            id: self.id,
            parent_node_id: self.parent_node_id,
            is_leaf: self.is_leaf,
            is_deleted: self.is_deleted,
            keys: copy_records(&self.keys),
            children: copy_children(&self.children),
        }
    }
}

fn copy_records(v: &Vec<Record>) -> (r: Vec<Record>)
    ensures
        r@ == v@,
{
    let mut r: Vec<Record> = Vec::with_capacity(v.len());
    let mut i: usize = 0;
    while i < v.len()
        invariant
            i <= v@.len(),
            r@ == v@.subrange(0, i as int),
        decreases v@.len() - i,
    {
        r.push(v[i]);
        i = i + 1;
    }
    assert(r@ =~= v@);
    r
}

fn copy_children(v: &Vec<Option<u64>>) -> (r: Vec<Option<u64>>)
    ensures
        r@ == v@,
{
    let mut r: Vec<Option<u64>> = Vec::with_capacity(v.len());
    let mut i: usize = 0;
    while i < v.len()
        invariant
            i <= v@.len(),
            r@ == v@.subrange(0, i as int),
        decreases v@.len() - i,
    {
        r.push(v[i]);
        i = i + 1;
    }
    assert(r@ =~= v@);
    r
}

impl Node {
    pub fn new(is_leaf: bool, id: u64, order: usize) -> (n: Self)
        requires
            order * 2 + 2 <= usize::MAX,
        ensures
            n@ == (NodeView {
                id,
                parent_node_id: None,
                is_leaf,
                is_deleted: false,
                keys: Seq::empty(),
                children: Seq::empty(),
            }),
    {
        Self {
            parent_node_id: None,
            keys: Vec::with_capacity(order * 2 + 1),
            children: Vec::with_capacity(order * 2 + 2),
            is_leaf,
            is_deleted: false,
            id,
        }
    }

    pub fn record_count(&self) -> (c: usize)
        ensures
            c == self@.keys.len(),
    {
        self.keys.len()
    }

    /// Bytes of one page for the given order.
    pub fn byte_size(order: usize) -> (s: usize)
        requires
            spec_byte_size(order as nat) <= usize::MAX,
        ensures
            s == spec_byte_size(order as nat),
    {
        1 + 8 + 8 + 8 + (2 * order + 1) * RECORD_SIZE + (2 * order + 2) * 8
    }

    /// The page image of this node.
    pub fn to_bytes(&self, order: usize) -> (bytes: Vec<u8>)
        requires
            spec_byte_size(order as nat) <= usize::MAX,
            self@.keys.len() * 16 <= usize::MAX,
            self@.children.len() * 8 <= usize::MAX,
        ensures
            bytes@ == spec_node_bytes(self@, order as nat),
    {
        let max_key_count = order * 2 + 1;
        let max_child_count = max_key_count + 1;
        let flags: u8 = (if self.is_leaf { 1u8 } else { 0u8 }) | (if self.is_deleted {
            2u8
        } else {
            0u8
        }) | (if self.parent_node_id.is_some() { 4u8 } else { 0u8 });
        let mut bytes: Vec<u8> = Vec::with_capacity(Self::byte_size(order));
        bytes.push(flags);
        let mut w = u64_to_le_bytes(self.id);
        bytes.append(&mut w);
        let parent_word = match self.parent_node_id {
            Some(p) => p,
            None => 0,
        };
        let mut w = u64_to_le_bytes(parent_word);
        bytes.append(&mut w);
        let mut w = u64_to_le_bytes(self.keys.len() as u64);
        bytes.append(&mut w);

        let mut record_bytes: Vec<u8> = Vec::new();
        let mut i: usize = 0;
        while i < self.keys.len()
            invariant
                i <= self.keys@.len(),
                self.keys@.len() * 16 <= usize::MAX,
                record_bytes@ == spec_records_bytes(self.keys@.subrange(0, i as int)),
            decreases self.keys@.len() - i,
        {
            proof {
                lemma_records_bytes(self.keys@.subrange(0, i as int));
                assert(self.keys@.subrange(0, i + 1).drop_last() =~= self.keys@.subrange(
                    0,
                    i as int,
                ));
            }
            let mut rb = self.keys[i].to_bytes();
            record_bytes.append(&mut rb);
            i = i + 1;
        }
        assert(self.keys@.subrange(0, self.keys@.len() as int) =~= self.keys@);
        let ghost rb0 = record_bytes@;
        record_bytes.resize(max_key_count * RECORD_SIZE, 0);
        assert(record_bytes@ =~= spec_pad_zeros(rb0, (2 * order + 1) * RECORD_SIZE));
        bytes.append(&mut record_bytes);

        let mut child_bytes: Vec<u8> = Vec::new();
        let mut i: usize = 0;
        while i < self.children.len()
            invariant
                i <= self.children@.len(),
                self.children@.len() * 8 <= usize::MAX,
                child_bytes@ == spec_children_bytes(self.children@.subrange(0, i as int)),
            decreases self.children@.len() - i,
        {
            proof {
                lemma_children_bytes(self.children@.subrange(0, i as int));
                assert(self.children@.subrange(0, i + 1).drop_last() =~= self.children@.subrange(
                    0,
                    i as int,
                ));
            }
            let word = match self.children[i] {
                Some(c) => c,
                None => 0,
            };
            let mut cb = u64_to_le_bytes(word);
            child_bytes.append(&mut cb);
            i = i + 1;
        }
        assert(self.children@.subrange(0, self.children@.len() as int) =~= self.children@);
        let ghost cb0 = child_bytes@;
        child_bytes.resize(max_child_count * 8, 0);
        assert(child_bytes@ =~= spec_pad_zeros(cb0, (2 * order + 2) * 8 as int));
        bytes.append(&mut child_bytes);
        assert(bytes@ =~= spec_node_bytes(self@, order as nat));
        bytes
    }

    /// The node that a page image describes.
    pub fn from_bytes(bytes: &[u8], order: usize) -> (n: Self)
        requires
            spec_bytes_readable(bytes@, order as nat),
        ensures
            n@ == spec_node_from_bytes(bytes@, order as nat),
    {
        let flags: u8 = bytes[0];
        let is_leaf = (flags & 1u8) != 0u8;
        let is_deleted = (flags & 2u8) != 0u8;
        let has_parent = (flags & 4u8) != 0u8;
        let id = u64_from_le_bytes(slice_subrange(bytes, 1, 9));
        let parent_node_id = if has_parent {
            Some(u64_from_le_bytes(slice_subrange(bytes, 9, 17)))
        } else {
            None
        };
        let key_count = u64_from_le_bytes(slice_subrange(bytes, 17, 25));
        assert(key_count == spec_key_count(bytes@));
        let kc = key_count as usize;
        let blen = bytes.len();
        assert(kc + 1 <= blen);
        let c0: usize = 25 + (order * 2 + 1) * RECORD_SIZE;
        let ghost target = spec_node_from_bytes(bytes@, order as nat);

        let mut keys: Vec<Record> = Vec::new();
        let mut i: usize = 0;
        while i < kc
            invariant
                i <= kc,
                kc == spec_key_count(bytes@),
                blen == bytes@.len(),
                spec_bytes_readable(bytes@, order as nat),
                target == spec_node_from_bytes(bytes@, order as nat),
                keys@ == target.keys.subrange(0, i as int),
            decreases kc - i,
        {
            assert(25 + 16 * i + 16 <= 25 + kc * 16) by (nonlinear_arith)
                requires
                    i < kc,
            ;
            let r = Record::from_bytes(slice_subrange(bytes, 25 + 16 * i, 25 + 16 * i + 16));
            assert(bytes@.subrange(25 + 16 * i, 25 + 16 * i + 16).subrange(0, 8) =~= bytes@.subrange(
                25 + 16 * i,
                25 + 16 * i + 16,
            ).subrange(0, 8));
            keys.push(r);
            i = i + 1;
        }
        assert(keys@ =~= target.keys);

        let mut children: Vec<Option<u64>> = Vec::new();
        let mut i: usize = 0;
        while i < kc + 1
            invariant
                i <= kc + 1,
                kc == spec_key_count(bytes@),
                kc + 1 <= blen,
                blen == bytes@.len(),
                c0 == spec_children_offset(order as nat),
                spec_bytes_readable(bytes@, order as nat),
                target == spec_node_from_bytes(bytes@, order as nat),
                is_leaf == target.is_leaf,
                children@ == target.children.subrange(0, i as int),
            decreases kc + 1 - i,
        {
            assert(c0 + 8 * i + 8 <= c0 + 8 * (kc + 1)) by (nonlinear_arith)
                requires
                    i < kc + 1,
            ;
            if is_leaf {
                children.push(None);
            } else {
                let w = u64_from_le_bytes(slice_subrange(bytes, c0 + 8 * i, c0 + 8 * i + 8));
                children.push(Some(w));
            }
            i = i + 1;
        }
        assert(children@ =~= target.children);
        Self { id, parent_node_id, is_leaf, is_deleted, keys, children }
    }
}

} // verus!

verus! {

impl Node {
    /// Looks `key` up in the subtree of this node: the record and the node it
    /// is in, or the position and the leaf where it would be inserted.
    pub fn search(&self, btree: &mut crate::btree::BTree, key: u64) -> (r: Result<
        (Record, u64),
        (u64, u64),
    >)
        requires
            old(btree).wf(),
            old(btree).in_tree(self.id),
            self@ == old(btree).node(self.id),
        ensures
            final(btree).wf(),
            crate::btree::spec_same_tree(*old(btree), *final(btree)),
            r == crate::btree::spec_search(old(btree).view(), self.id, key),
            crate::btree::spec_store_frame(*old(btree), *final(btree)),
        decreases old(btree).height(self.id),
    {
        proof {
            assert(old(btree).view().in_tree(self.id));
            assert(old(btree).view().shape_ok(self.id));
            assert forall|id: u64| #[trigger] old(btree).in_tree(id) implies spec_well_shaped(
                old(btree).node(id),
            ) by {
                assert(old(btree).view().in_tree(id));
            }
        }
        match crate::btree::bsearch(&self.keys, key) {
            Ok(i) => {
                proof {
                    btree.lemma_kept_same_tree(old(btree));
                    crate::btree::lemma_frame_kept(*old(btree), *btree);
                }
                Ok((self.keys[i], self.id))
            },
            Err(i) => match self.children[i] {
                Some(child_id) => {
                    proof {
                        assert(crate::btree::spec_child(self.children@, i as int) == child_id);
                        assert(old(btree).view().in_tree(child_id));
                    }
                    let child = btree.get_node(child_id);
                    let ghost mid = *btree;
                    proof {
                        btree.lemma_kept_same_tree(old(btree));
                    crate::btree::lemma_frame_kept(*old(btree), *btree);
                        crate::btree::lemma_wf_same_tree(*old(btree), mid);
                    }
                    let r = child.search(btree, key);
                    proof {
                        crate::btree::lemma_same_tree_trans(*old(btree), mid, *btree);
                        crate::btree::lemma_frame_trans(*old(btree), mid, *btree);
                    }
                    r
                },
                None => {
                    proof {
                        btree.lemma_kept_same_tree(old(btree));
                    crate::btree::lemma_frame_kept(*old(btree), *btree);
                    }
                    Err((i as u64, self.id))
                },
            },
        }
    }
}

} // verus!

verus! {

/// The halves of a redistribution of two nodes in page shape at the same
/// height are in page shape.
proof fn lemma_redist_shapes(s: NodeView, l: NodeView, pk: Record)
    requires
        spec_well_shaped(s),
        spec_well_shaped(l),
        s.is_leaf == l.is_leaf,
    ensures
        spec_well_shaped(crate::btree::spec_redist_small(s, l, pk)),
        spec_well_shaped(crate::btree::spec_redist_large(s, l, pk)),
{
    let cpool = crate::btree::spec_pool_children(s, l);
    assert forall|i: int| 0 <= i < cpool.len() implies (#[trigger] cpool[i] is Some) != s.is_leaf
        by {
        if i < s.children.len() {
            assert(cpool[i] == s.children[i]);
        } else {
            assert(cpool[i] == l.children[i - s.children.len()]);
        }
    }
    let pool = crate::btree::spec_pool_keys(s, l, pk);
    let m: int = pool.len() as int / 2;
    let a = crate::btree::spec_redist_small(s, l, pk);
    let b = crate::btree::spec_redist_large(s, l, pk);
    assert forall|i: int| 0 <= i < a.children.len() implies (#[trigger] a.children[i] is Some)
        != a.is_leaf by {
        assert(a.children[i] == cpool[i]);
    }
    assert forall|i: int| 0 <= i < b.children.len() implies (#[trigger] b.children[i] is Some)
        != b.is_leaf by {
        assert(b.children[i] == cpool[m + 1 + i]);
    }
}

/// Spreads the records of `small`, the parent's record `kpos` and the records
/// of `large` evenly: the first half to `small`, the middle one to the
/// parent, the rest to `large`, each child following its records.
fn redistribute(
    small: &mut Node,
    large: &mut Node,
    btree: &mut crate::btree::BTree,
    parent: &mut Node,
    kpos: usize,
)
    requires
        old(btree).wf_base(),
        crate::btree::spec_stored_ok(*old(btree)),
        old(btree).in_tree(old(small).id),
        old(btree).in_tree(old(large).id),
        old(btree).in_tree(old(parent).id),
        old(small).id != old(large).id,
        old(small).id != old(parent).id,
        old(large).id != old(parent).id,
        old(small)@ == old(btree).node(old(small).id),
        old(large)@ == old(btree).node(old(large).id),
        old(parent)@ == old(btree).node(old(parent).id),
        old(small)@.is_leaf == old(large)@.is_leaf,
        kpos < old(parent)@.keys.len(),
        forall|i: int|
            0 <= i < old(small)@.children.len() && old(small)@.children[i] is Some ==> old(
                btree,
            ).in_tree(#[trigger] crate::btree::spec_child(old(small)@.children, i)),
        forall|i: int|
            0 <= i < old(large)@.children.len() && old(large)@.children[i] is Some ==> old(
                btree,
            ).in_tree(#[trigger] crate::btree::spec_child(old(large)@.children, i)),
        ({
            let pool = crate::btree::spec_pool_keys(
                old(small)@,
                old(large)@,
                old(parent)@.keys[kpos as int],
            );
            &&& pool.len() / 2 <= spec_max_keys(old(btree).order as nat)
            &&& pool.len() - pool.len() / 2 - 1 <= spec_max_keys(old(btree).order as nat)
        }),
    ensures
        final(small)@ == crate::btree::spec_redist_small(
            old(small)@,
            old(large)@,
            old(parent)@.keys[kpos as int],
        ),
        final(large)@ == crate::btree::spec_redist_large(
            old(small)@,
            old(large)@,
            old(parent)@.keys[kpos as int],
        ),
        final(parent)@ == crate::btree::spec_redist_parent(
            old(parent)@,
            old(small)@,
            old(large)@,
            kpos as int,
        ),
        final(btree).wf_base(),
        crate::btree::spec_stored_ok(*final(btree)),
        final(btree).heights == old(btree).heights,
        final(btree).root_id == old(btree).root_id,
        final(btree).order == old(btree).order,
        final(btree).data_file == old(btree).data_file,
        final(btree).nodes_file.next_id == old(btree).nodes_file.next_id,
        crate::btree::spec_store_frame(*old(btree), *final(btree)),
        forall|id: u64| #[trigger]
            old(btree).in_tree(id) ==> final(btree).node(id) == (if id == old(small).id {
                final(small)@
            } else if id == old(large).id {
                final(large)@
            } else if id == old(parent).id {
                final(parent)@
            } else if final(small)@.children.contains(Some(id)) {
                crate::btree::spec_with_parent(old(btree).node(id), old(small).id)
            } else if final(large)@.children.contains(Some(id)) {
                crate::btree::spec_with_parent(old(btree).node(id), old(large).id)
            } else {
                old(btree).node(id)
            }),
{
    let ghost s0 = small@;
    let ghost l0 = large@;
    let ghost p0 = parent@;
    let ghost pk = parent@.keys[kpos as int];
    let ghost pool = crate::btree::spec_pool_keys(s0, l0, pk);
    let ghost cpool = crate::btree::spec_pool_children(s0, l0);
    proof {
        lemma_redist_shapes(s0, l0, pk);
    }
    let mut key_pool = small.keys.split_off(0);
    let mut children_pool = small.children.split_off(0);
    key_pool.push(parent.keys[kpos]);
    let mut lk = large.keys.split_off(0);
    key_pool.append(&mut lk);
    let mut lc = large.children.split_off(0);
    children_pool.append(&mut lc);
    assert(key_pool@ =~= pool);
    assert(children_pool@ =~= cpool);
    let split_point = key_pool.len();
    large.keys = key_pool.split_off(split_point / 2 + 1);
    large.children = children_pool.split_off(split_point / 2 + 1);
    assert(large@ == crate::btree::spec_redist_large(s0, l0, pk));
    proof {
        assert forall|i: int|
            0 <= i < large@.children.len() && large@.children[i] is Some implies old(btree).in_tree(
            #[trigger] crate::btree::spec_child(large@.children, i),
        ) by {
            let j = (split_point / 2 + 1) + i;
            assert(large@.children[i] == cpool[j]);
            if j < s0.children.len() {
                assert(crate::btree::spec_child(s0.children, j) == crate::btree::spec_child(
                    large@.children,
                    i,
                ));
            } else {
                assert(crate::btree::spec_child(l0.children, j - s0.children.len())
                    == crate::btree::spec_child(large@.children, i));
            }
        }
    }
    let ghost b0 = *btree;
    btree.set_parents(&large.children, large.id);
    let ghost b1 = *btree;
    let mut middle = key_pool.split_off(split_point / 2);
    parent.keys.set(kpos, middle[0]);
    small.keys = key_pool.split_off(0);
    small.children = children_pool.split_off(0);
    assert(small@.keys =~= pool.subrange(0, pool.len() as int / 2));
    assert(small@.children =~= cpool.subrange(0, pool.len() as int / 2 + 1));
    assert(small@ == crate::btree::spec_redist_small(s0, l0, pk));
    assert(parent@ == crate::btree::spec_redist_parent(p0, s0, l0, kpos as int));
    proof {
        assert forall|i: int|
            0 <= i < small@.children.len() && small@.children[i] is Some implies b1.in_tree(
            #[trigger] crate::btree::spec_child(small@.children, i),
        ) by {
            assert(small@.children[i] == cpool[i]);
            if i < s0.children.len() {
                assert(crate::btree::spec_child(s0.children, i) == crate::btree::spec_child(
                    small@.children,
                    i,
                ));
            } else {
                assert(crate::btree::spec_child(l0.children, i - s0.children.len())
                    == crate::btree::spec_child(small@.children, i));
            }
        }
    }
    btree.set_parents(&small.children, small.id);
    let ghost b2 = *btree;
    btree.update_node(small);
    let ghost b3 = *btree;
    btree.update_node(large);
    let ghost b4 = *btree;
    btree.update_node(parent);
    proof {
        assert(b0.in_tree(small.id) && b0.in_tree(large.id) && b0.in_tree(parent.id));
        crate::btree::lemma_frame_trans(b0, b1, b2);
        crate::btree::lemma_frame_trans(b0, b2, b3);
        crate::btree::lemma_frame_trans(b0, b3, b4);
        crate::btree::lemma_frame_trans(b0, b4, *btree);
        assert(spec_well_shaped(parent@)) by {
            assert(spec_well_shaped(p0));
        }
        crate::node::lemma_normalize_well_shaped(small@);
        crate::node::lemma_normalize_well_shaped(large@);
        crate::node::lemma_normalize_well_shaped(parent@);
        assert forall|id: u64| #[trigger] old(btree).in_tree(id) implies btree.node(id) == (if id
            == small.id {
            small@
        } else if id == large.id {
            large@
        } else if id == parent.id {
            parent@
        } else if small@.children.contains(Some(id)) {
            crate::btree::spec_with_parent(old(btree).node(id), small.id)
        } else if large@.children.contains(Some(id)) {
            crate::btree::spec_with_parent(old(btree).node(id), large.id)
        } else {
            old(btree).node(id)
        }) && btree.nodes_file.readable(id) by {
            assert(b1.in_tree(id) && b2.in_tree(id) && b3.in_tree(id) && b4.in_tree(id));
            assert(b2.nodes_file.readable(id) && b3.nodes_file.readable(id) && b4.nodes_file.readable(id));
            if id != small.id {
                crate::btree::lemma_kept_shaped(b2.node(id), b3.node(id));
            }
            if id != large.id {
                crate::btree::lemma_kept_shaped(b3.node(id), b4.node(id));
            }
            if id != parent.id {
                crate::btree::lemma_kept_shaped(b4.node(id), btree.node(id));
            }
        }
        assert forall|id: u64| #[trigger] btree.in_tree(id) implies btree.nodes_file.readable(id)
            && id < btree.nodes_file.next_id && spec_well_shaped(btree.node(id)) && btree.node(id).id
            == id && btree.node(id).keys.len() <= spec_max_keys(btree.order as nat) by {
            assert(old(btree).in_tree(id));
            assert(b2.in_tree(id));
        }
    }
}

} // verus!

verus! {

impl Node {
    /// Evens out the records of this node and its neighbour `sibling` through
    /// the parent's record `key_position_in_parent`.
    fn compensate(
        &mut self,
        btree: &mut crate::btree::BTree,
        parent: &mut Node,
        key_position_in_parent: usize,
        sibling: &mut Node,
    ) -> (r: Result<(), ()>)
        requires
            old(btree).wf_except(old(self).id),
            old(btree).in_tree(old(self).id),
            old(btree).in_tree(old(sibling).id),
            old(btree).in_tree(old(parent).id),
            old(self).id != old(sibling).id,
            old(self)@ == old(btree).node(old(self).id),
            old(sibling)@ == old(btree).node(old(sibling).id),
            old(parent)@ == old(btree).node(old(parent).id),
            old(self)@.parent_node_id == Some(old(parent).id),
            old(sibling)@.parent_node_id == Some(old(parent).id),
            old(btree).height(old(self).id) == old(btree).height(old(sibling).id),
            key_position_in_parent < old(parent)@.keys.len(),
            (old(parent)@.children[key_position_in_parent as int] == Some(old(self).id)
                && old(parent)@.children[key_position_in_parent + 1] == Some(old(sibling).id)) || (
            old(parent)@.children[key_position_in_parent as int] == Some(old(sibling).id)
                && old(parent)@.children[key_position_in_parent + 1] == Some(old(self).id)),
            crate::contents::spec_ordered(old(btree).view()),
            ({
                let total = old(self)@.keys.len() + old(sibling)@.keys.len() + 1;
                &&& old(btree).order <= total / 2 <= 2 * old(btree).order
                &&& old(btree).order <= total - total / 2 - 1 <= 2 * old(btree).order
            }),
        ensures
            r is Ok,
            final(btree).wf(),
            crate::contents::spec_records(final(btree).view()) == crate::contents::spec_records(old(btree).view()),
            final(btree).heights == old(btree).heights,
            final(btree).root_id == old(btree).root_id,
            final(btree).order == old(btree).order,
            final(btree).data_file == old(btree).data_file,
            final(btree).nodes_file.next_id == old(btree).nodes_file.next_id,
            old(parent)@.children[key_position_in_parent as int] == Some(old(self).id)
                ==> crate::btree::spec_redistributed(
                old(btree).view(),
                final(btree).view(),
                old(self).id,
                old(self).id,
                old(sibling).id,
                old(parent).id,
                key_position_in_parent as int,
            ),
            old(parent)@.children[key_position_in_parent as int] != Some(old(self).id)
                ==> crate::btree::spec_redistributed(
                old(btree).view(),
                final(btree).view(),
                old(self).id,
                old(sibling).id,
                old(self).id,
                old(parent).id,
                key_position_in_parent as int,
            ),
            crate::btree::spec_kept_below(
                old(btree).view(),
                final(btree).view(),
                old(btree).height(old(self).id),
            ),
            crate::btree::spec_store_frame(*old(btree), *final(btree)),
    {
        let ghost v = old(btree).view();
        let ghost x = self.id;
        proof {
            crate::btree::lemma_wf_stored(*old(btree), x);
            assert(v.in_tree(self.id) && v.in_tree(sibling.id) && v.in_tree(parent.id));
            assert(v.shape_ok(self.id) && v.shape_ok(sibling.id) && v.shape_ok(parent.id));
            crate::btree::lemma_children_parent(v, x, parent.id, self.id);
            assert(self.id != parent.id && sibling.id != parent.id);
            assert(self@.is_leaf == sibling@.is_leaf);
            assert forall|i: int|
                0 <= i < self@.children.len() && self@.children[i] is Some implies old(btree).in_tree(
                #[trigger] crate::btree::spec_child(self@.children, i),
            ) by {}
            assert forall|i: int|
                0 <= i < sibling@.children.len() && sibling@.children[i] is Some implies old(
                btree,
            ).in_tree(#[trigger] crate::btree::spec_child(sibling@.children, i)) by {}
        }
        let kpos = key_position_in_parent;
        let self_is_left = match parent.children[kpos] {
            Some(c) => c == self.id,
            None => false,
        };
        if self_is_left {
            redistribute(self, sibling, btree, parent, kpos);
            proof {
                let w = btree.view();
                assert(w.nodes.dom() =~= v.nodes.dom());
                crate::btree::lemma_redistribute_wf(v, w, x, self.id, sibling.id, parent.id, kpos as int);
                crate::contents::lemma_redist_records(v, w, x, self.id, sibling.id, parent.id, kpos as int);
                crate::btree::lemma_redist_kept_below(v, w, x, self.id, sibling.id, parent.id, kpos as int);
            }
        } else {
            redistribute(sibling, self, btree, parent, kpos);
            proof {
                let w = btree.view();
                assert(w.nodes.dom() =~= v.nodes.dom());
                crate::btree::lemma_redistribute_wf(v, w, x, sibling.id, self.id, parent.id, kpos as int);
                crate::contents::lemma_redist_records(v, w, x, sibling.id, self.id, parent.id, kpos as int);
                crate::btree::lemma_redist_kept_below(v, w, x, sibling.id, self.id, parent.id, kpos as int);
            }
        }
        Ok(())
    }
}

} // verus!

verus! {

impl Node {
    /// The neighbour to even out with after an insertion overfilled this node:
    /// the left one unless it is full, else the right one unless it is full.
    fn get_compensation_partners_insertion(&self, btree: &mut crate::btree::BTree) -> (r: Result<
        (Node, usize, Node),
        (),
    >)
        requires
            old(btree).wf_except(self.id),
            old(btree).in_tree(self.id),
            self@ == old(btree).node(self.id),
        ensures
            final(btree).wf_except(self.id),
            crate::btree::spec_same_tree(*old(btree), *final(btree)),
            crate::btree::spec_store_frame(*old(btree), *final(btree)),
            match r {
                Ok((p, k, s)) => {
                    &&& crate::btree::spec_partner(old(btree).view(), self.id, true) == Ok::<(u64, int, u64), ()>(
                        (p.id, k as int, s.id),
                    )
                    &&& p@ == old(btree).node(p.id)
                    &&& s@ == old(btree).node(s.id)
                },
                Err(()) => crate::btree::spec_partner(old(btree).view(), self.id, true) is Err,
            },
    {
        self.get_compensation_partners(btree, true)
    }

    /// The neighbour to even out with after a deletion left this node short:
    /// the left one if it has a record to spare, else the right one if it has.
    fn get_compensation_partners_deletion(&self, btree: &mut crate::btree::BTree) -> (r: Result<
        (Node, usize, Node),
        (),
    >)
        requires
            old(btree).wf_except(self.id),
            old(btree).in_tree(self.id),
            self@ == old(btree).node(self.id),
        ensures
            final(btree).wf_except(self.id),
            crate::btree::spec_same_tree(*old(btree), *final(btree)),
            crate::btree::spec_store_frame(*old(btree), *final(btree)),
            match r {
                Ok((p, k, s)) => {
                    &&& crate::btree::spec_partner(old(btree).view(), self.id, false) == Ok::<(u64, int, u64), ()>(
                        (p.id, k as int, s.id),
                    )
                    &&& p@ == old(btree).node(p.id)
                    &&& s@ == old(btree).node(s.id)
                },
                Err(()) => crate::btree::spec_partner(old(btree).view(), self.id, false) is Err,
            },
    {
        self.get_compensation_partners(btree, false)
    }

    fn get_compensation_partners(&self, btree: &mut crate::btree::BTree, insertion: bool) -> (r:
        Result<(Node, usize, Node), ()>)
        requires
            old(btree).wf_except(self.id),
            old(btree).in_tree(self.id),
            self@ == old(btree).node(self.id),
        ensures
            final(btree).wf_except(self.id),
            crate::btree::spec_same_tree(*old(btree), *final(btree)),
            crate::btree::spec_store_frame(*old(btree), *final(btree)),
            match r {
                Ok((p, k, s)) => {
                    &&& crate::btree::spec_partner(old(btree).view(), self.id, insertion) == Ok::<(u64, int, u64), ()>(
                        (p.id, k as int, s.id),
                    )
                    &&& p@ == old(btree).node(p.id)
                    &&& s@ == old(btree).node(s.id)
                },
                Err(()) => crate::btree::spec_partner(old(btree).view(), self.id, insertion) is Err,
            },
    {
        let ghost v = old(btree).view();
        proof {
            crate::btree::lemma_wf_stored(*old(btree), self.id);
            assert(v.in_tree(self.id));
            assert(v.shape_ok(self.id));
            crate::btree::lemma_wf_same_tree(*old(btree), *btree);
        }
        match self.parent_node_id {
            Some(parent_id) => {
                let parent = btree.fetch(parent_id);
                let ghost b1 = *btree;
                let pos = crate::btree::position_of_child(&parent.children, self.id);
                proof {
                    crate::btree::lemma_position(parent@.children, self.id, pos as int);
                    assert(v.in_tree(parent_id));
                    assert(v.shape_ok(parent_id));
                    crate::btree::lemma_children_parent(v, self.id, parent_id, self.id);
                    assert(v.size_ok(parent_id));
                    assert(!parent@.is_leaf);
                }
                let order = btree.order;
                if pos > 0 {
                    proof {
                        assert(crate::btree::spec_child(parent@.children, pos - 1) == parent@.children[pos - 1]->0);
                    }
                    let left = btree.fetch(parent.children[pos - 1].unwrap());
                    let ghost b2 = *btree;
                    let left_blocked = if insertion {
                        left.keys.len() >= 2 * order
                    } else {
                        left.keys.len() <= order
                    };
                    if left_blocked {
                        if pos < parent.children.len() - 1 {
                            proof {
                                assert(crate::btree::spec_child(parent@.children, pos + 1) == parent@.children[pos + 1]->0);
                            }
                            let right = btree.fetch(parent.children[pos + 1].unwrap());
                            let right_blocked = if insertion {
                                right.keys.len() >= 2 * order
                            } else {
                                right.keys.len() <= order
                            };
                            proof {
                                crate::btree::lemma_same_tree_trans(*old(btree), b1, b2);
                                crate::btree::lemma_same_tree_trans(*old(btree), b2, *btree);
                                crate::btree::lemma_frame_trans(*old(btree), b1, b2);
                                crate::btree::lemma_frame_trans(*old(btree), b2, *btree);
                                crate::btree::lemma_wf_except_same_tree(*old(btree), *btree, self.id);
                            }
                            if right_blocked {
                                return Err(());
                            }
                            return Ok((parent, pos, right));
                        }
                        proof {
                            crate::btree::lemma_same_tree_trans(*old(btree), b1, *btree);
                        crate::btree::lemma_frame_trans(*old(btree), b1, *btree);
                            crate::btree::lemma_wf_except_same_tree(*old(btree), *btree, self.id);
                        }
                        return Err(());
                    }
                    proof {
                        crate::btree::lemma_same_tree_trans(*old(btree), b1, *btree);
                        crate::btree::lemma_frame_trans(*old(btree), b1, *btree);
                        crate::btree::lemma_wf_except_same_tree(*old(btree), *btree, self.id);
                    }
                    return Ok((parent, pos - 1, left));
                } else {
                    proof {
                        assert(crate::btree::spec_child(parent@.children, 1) == parent@.children[1]->0);
                    }
                    let sibling = btree.fetch(parent.children[pos + 1].unwrap());
                    let blocked = if insertion {
                        sibling.keys.len() >= 2 * order
                    } else {
                        sibling.keys.len() <= order
                    };
                    proof {
                        crate::btree::lemma_same_tree_trans(*old(btree), b1, *btree);
                        crate::btree::lemma_frame_trans(*old(btree), b1, *btree);
                        crate::btree::lemma_wf_except_same_tree(*old(btree), *btree, self.id);
                    }
                    if blocked {
                        return Err(());
                    }
                    return Ok((parent, 0, sibling));
                }
            },
            None => {
                proof {
                    btree.lemma_kept_same_tree(old(btree));
                    crate::btree::lemma_frame_kept(*old(btree), *btree);
                }
                Err(())
            },
        }
    }
}

} // verus!

verus! {

impl Node {
    /// Puts `new_record` into this node in key order, with `right_child` after
    /// it (a node without children also gets `left_child` before it), and
    /// stores the node.
    fn basic_insert(
        &mut self,
        btree: &mut crate::btree::BTree,
        new_record: &Record,
        left_child: Option<u64>,
        right_child: Option<u64>,
    )
        requires
            old(btree).nodes_file.wf(),
            old(self).id < usize::MAX,
            old(self)@.keys.len() + 1 <= spec_max_keys(old(btree).nodes_file.order as nat),
            old(self)@.children.len() == old(self)@.keys.len() + 1 || (old(self)@.children.len() == 0
                && old(self)@.keys.len() == 0),
        ensures
            final(self)@ == crate::btree::spec_basic_insert(
                old(self)@,
                *new_record,
                left_child,
                right_child,
            ),
            final(btree).nodes_file.wf(),
            final(btree).nodes_file.readable(old(self).id),
            spec_entry_kept(final(self)@, final(btree).node(old(self).id)),
            forall|id: u64| #[trigger]
                old(btree).nodes_file.readable(id) && id != old(self).id ==> final(btree).nodes_file.readable(id)
                    && spec_entry_kept(old(btree).node(id), final(btree).node(id)),
            final(btree).nodes_file.next_id == old(btree).nodes_file.next_id,
            final(btree).nodes_file.order == old(btree).nodes_file.order,
            final(btree).root_id == old(btree).root_id,
            final(btree).order == old(btree).order,
            final(btree).heights == old(btree).heights,
            final(btree).data_file == old(btree).data_file,
            old(btree).in_tree(old(self).id) ==> crate::btree::spec_store_frame(*old(btree), *final(btree)),
    {
        let key_destination: usize = match crate::btree::bsearch(&self.keys, new_record.key) {
            Ok(i) => i,
            Err(i) => i,
        };
        self.keys.insert(key_destination, *new_record);
        if self.children.len() == 0 {
            self.children.insert(key_destination, left_child);
        }
        self.children.insert(key_destination + 1, right_child);
        btree.update_node(self);
    }
}

} // verus!

verus! {

impl Node {
    /// Evens out with a neighbour after an insertion overfilled this node;
    /// refused when it has no parent or both neighbours are full.
    #[verifier::spinoff_prover]
    #[verifier::rlimit(40)]
    fn compensate_insertion(&mut self, btree: &mut BTree) -> (r: Result<(), ()>)
        requires
            old(btree).wf_except(old(self).id),
            old(btree).in_tree(old(self).id),
            old(self)@ == old(btree).node(old(self).id),
            old(self)@.keys.len() == 2 * old(btree).order + 1,
            crate::contents::spec_ordered(old(btree).view()),
        ensures
            r is Ok <==> crate::btree::spec_partner(old(btree).view(), old(self).id, true) is Ok,
            crate::btree::spec_store_frame(*old(btree), *final(btree)),
            r is Ok ==> crate::btree::spec_evened(old(btree).view(), final(btree).view(), old(self).id, true),
            r is Ok ==> crate::btree::spec_kept_below(
                old(btree).view(),
                final(btree).view(),
                old(btree).height(old(self).id),
            ),
            r is Ok ==> {
                &&& final(btree).wf()
                &&& crate::contents::spec_records(final(btree).view()) == crate::contents::spec_records(old(btree).view())
                &&& final(btree).heights == old(btree).heights
                &&& final(btree).root_id == old(btree).root_id
                &&& final(btree).order == old(btree).order
                &&& final(btree).data_file == old(btree).data_file
                &&& final(btree).nodes_file.next_id == old(btree).nodes_file.next_id
            },
            r is Err ==> {
                &&& final(btree).wf_except(old(self).id)
                &&& spec_same_tree(*old(btree), *final(btree))
                &&& final(self)@ == old(self)@
            },
    {
        match self.get_compensation_partners_insertion(btree) {
            Ok((mut parent, key_position_in_parent, mut sibling)) => {
                proof {
                    crate::btree::lemma_partner(old(btree).view(), self.id, true);
                    crate::btree::lemma_wf_except_same_tree(*old(btree), *btree, self.id);
                    assert(old(btree).view().size_ok(sibling.id));
                }
                let ghost mid = *btree;
                let r = self.compensate(btree, &mut parent, key_position_in_parent, &mut sibling);
                proof {
                    crate::btree::lemma_frame_trans(*old(btree), mid, *btree);
                }
                r
            },
            Err(()) => Err(()),
        }
    }

    /// Evens out with a neighbour after a deletion left this node short;
    /// refused when it has no parent or no neighbour has a record to spare.
    #[verifier::spinoff_prover]
    #[verifier::rlimit(40)]
    fn compensate_deletion(&mut self, btree: &mut BTree) -> (r: Result<(), ()>)
        requires
            old(btree).wf_except(old(self).id),
            old(btree).in_tree(old(self).id),
            old(self)@ == old(btree).node(old(self).id),
            old(self)@.keys.len() + 1 == old(btree).order,
            crate::contents::spec_ordered(old(btree).view()),
        ensures
            r is Ok <==> crate::btree::spec_partner(old(btree).view(), old(self).id, false) is Ok,
            crate::btree::spec_store_frame(*old(btree), *final(btree)),
            r is Ok ==> crate::btree::spec_evened(old(btree).view(), final(btree).view(), old(self).id, false),
            r is Ok ==> crate::btree::spec_kept_below(
                old(btree).view(),
                final(btree).view(),
                old(btree).height(old(self).id),
            ),
            r is Ok ==> {
                &&& final(btree).wf()
                &&& crate::contents::spec_records(final(btree).view()) == crate::contents::spec_records(old(btree).view())
                &&& final(btree).heights == old(btree).heights
                &&& final(btree).root_id == old(btree).root_id
                &&& final(btree).order == old(btree).order
                &&& final(btree).data_file == old(btree).data_file
                &&& final(btree).nodes_file.next_id == old(btree).nodes_file.next_id
            },
            r is Err ==> {
                &&& final(btree).wf_except(old(self).id)
                &&& spec_same_tree(*old(btree), *final(btree))
                &&& final(self)@ == old(self)@
            },
    {
        match self.get_compensation_partners_deletion(btree) {
            Ok((mut parent, key_position_in_parent, mut sibling)) => {
                proof {
                    crate::btree::lemma_partner(old(btree).view(), self.id, false);
                    crate::btree::lemma_wf_except_same_tree(*old(btree), *btree, self.id);
                    assert(old(btree).view().size_ok(sibling.id));
                }
                let ghost mid = *btree;
                let r = self.compensate(btree, &mut parent, key_position_in_parent, &mut sibling);
                proof {
                    crate::btree::lemma_frame_trans(*old(btree), mid, *btree);
                }
                r
            },
            Err(()) => Err(()),
        }
    }

    /// The parent of this node and this node's position among its children.
    fn get_parent(&self, btree: &mut BTree) -> (r: (Node, usize))
        requires
            old(btree).wf_except(self.id),
            old(btree).in_tree(self.id),
            !old(btree).is_root(self.id),
            self@ == old(btree).node(self.id),
        ensures
            final(btree).wf_except(self.id),
            spec_same_tree(*old(btree), *final(btree)),
            self@.parent_node_id == Some(r.0.id),
            r.0@ == old(btree).node(r.0.id),
            old(btree).in_tree(r.0.id),
            r.1 < r.0@.children.len(),
            r.0@.children[r.1 as int] == Some(self.id),
            r.1 == crate::btree::spec_position(r.0@.children, self.id),
            crate::btree::spec_store_frame(*old(btree), *final(btree)),
    {
        proof {
            crate::btree::lemma_wf_stored(*old(btree), self.id);
            assert(old(btree).view().in_tree(self.id));
            assert(old(btree).view().shape_ok(self.id));
        }
        let parent = btree.fetch(self.parent_node_id.unwrap());
        let position_in_parent = crate::btree::position_of_child(&parent.children, self.id);
        proof {
            crate::btree::lemma_position(parent@.children, self.id, position_in_parent as int);
            crate::btree::lemma_wf_except_same_tree(*old(btree), *btree, self.id);
        }
        (parent, position_in_parent)
    }
}

} // verus!

verus! {

/// Node `n` has too many records, or (not being the root) too few.
pub open spec fn spec_needs_fix(t: BTree, n: NodeView) -> bool {
    n.keys.len() > 2 * t.order || (n.keys.len() < t.order && !t.is_root(n.id))
}

/// What fixing node `n` of tree `t` up the tree with `fuel` steps needs.
pub open spec fn spec_fix_pre(t: BTree, n: NodeView, fuel: nat) -> bool {
    &&& t.wf_except(n.id)
    &&& t.in_tree(n.id)
    &&& n == t.node(n.id)
    &&& n.keys.len() <= 2 * t.order + 1
    &&& (!t.is_root(n.id) ==> n.keys.len() + 1 >= t.order)
    &&& (spec_needs_fix(t, n) ==> fuel >= t.tree_height() - t.height(n.id) + 2)
    &&& t.nodes_file.next_id + 2 * fuel + 2 < usize::MAX
    &&& crate::contents::spec_ordered(t.view())
}

/// What inserting a record with its right child into node `n` of tree `t`
/// needs: the tree with `n` so extended is well formed but for `n`'s size.
pub open spec fn spec_insert_pre(
    t: BTree,
    n: NodeView,
    r: Record,
    left: Option<u64>,
    right: Option<u64>,
    fuel: nat,
) -> bool {
    let n2 = crate::btree::spec_basic_insert(n, r, left, right);
    &&& t.wf_base()
    &&& t.in_tree(n.id)
    &&& crate::btree::spec_view_with(t.view(), n.id, n2).wf_except(n.id)
    &&& n.children.len() == n.keys.len() + 1 || (n.children.len() == 0 && n.keys.len() == 0)
    &&& (!t.is_root(n.id) ==> n.keys.len() >= t.order)
    &&& (n.keys.len() > 0 ==> fuel >= t.tree_height() - t.height(n.id) + 2)
    &&& t.nodes_file.next_id + 2 * fuel + 2 < usize::MAX
    &&& crate::contents::spec_ordered(crate::btree::spec_view_with(t.view(), n.id, n2))
}

impl Node {
    /// Inserts `new_record` into this node, with `right_child` after it, and
    /// rebalances the tree.
    pub fn insert(
        &mut self,
        btree: &mut BTree,
        new_record: Record,
        left_child: Option<u64>,
        right_child: Option<u64>,
    ) -> (r: Result<(), ()>)
        requires
            spec_insert_pre(
                *old(btree),
                old(self)@,
                new_record,
                left_child,
                right_child,
                (old(btree).tree_height() - old(btree).height(old(self).id) + 2) as nat,
            ),
        ensures
            r is Ok,
            final(btree).wf(),
            final(btree).data_file == old(btree).data_file,
            final(btree).order == old(btree).order,
            crate::contents::spec_records(final(btree).view()) == crate::contents::spec_records(
                crate::btree::spec_view_with(
                    old(btree).view(),
                    old(self).id,
                    crate::btree::spec_basic_insert(old(self)@, new_record, left_child, right_child),
                ),
            ),
            crate::btree::spec_grown(
                old(btree).view(),
                final(btree).view(),
                old(btree).nodes_file.next_id,
                final(btree).nodes_file.next_id,
            ),
            final(btree).tree_height() <= old(btree).tree_height() + 1,
            final(btree).nodes_file.next_id + old(btree).height(old(self).id) <= old(btree).nodes_file.next_id
                + old(btree).tree_height() + 2,
            crate::btree::spec_store_frame(*old(btree), *final(btree)),
            ({
                let n2 = crate::btree::spec_basic_insert(old(self)@, new_record, left_child, right_child);
                let v2 = crate::btree::spec_view_with(old(btree).view(), old(self).id, n2);
                &&& n2.keys.len() <= 2 * old(btree).order ==> final(btree).view() == v2
                    && final(btree).nodes_file.next_id == old(btree).nodes_file.next_id
                &&& n2.keys.len() > 2 * old(btree).order ==> crate::btree::spec_overflow_fixed(
                    v2,
                    final(btree).view(),
                    old(self).id,
                    old(btree).nodes_file.next_id,
                )
            }),
    {
        let ghost fuel = (btree.tree_height() - btree.height(self.id) + 2) as nat;
        self.insert_rec(btree, new_record, left_child, right_child, Ghost(fuel))
    }

    fn insert_rec(
        &mut self,
        btree: &mut BTree,
        new_record: Record,
        left_child: Option<u64>,
        right_child: Option<u64>,
        Ghost(fuel): Ghost<nat>,
    ) -> (r: Result<(), ()>)
        requires
            spec_insert_pre(*old(btree), old(self)@, new_record, left_child, right_child, fuel),
        ensures
            r is Ok,
            final(btree).wf(),
            final(btree).data_file == old(btree).data_file,
            final(btree).order == old(btree).order,
            crate::contents::spec_records(final(btree).view()) == crate::contents::spec_records(
                crate::btree::spec_view_with(
                    old(btree).view(),
                    old(self).id,
                    crate::btree::spec_basic_insert(old(self)@, new_record, left_child, right_child),
                ),
            ),
            final(btree).nodes_file.next_id >= old(btree).nodes_file.next_id,
            crate::btree::spec_kept_below(
                old(btree).view(),
                final(btree).view(),
                old(btree).height(old(self).id),
            ),
            crate::btree::spec_grown(
                old(btree).view(),
                final(btree).view(),
                old(btree).nodes_file.next_id,
                final(btree).nodes_file.next_id,
            ),
            final(btree).tree_height() <= old(btree).tree_height() + 1,
            final(btree).nodes_file.next_id + old(btree).height(old(self).id) <= old(btree).nodes_file.next_id
                + old(btree).tree_height() + 2,
            crate::btree::spec_store_frame(*old(btree), *final(btree)),
            ({
                let n2 = crate::btree::spec_basic_insert(old(self)@, new_record, left_child, right_child);
                let v2 = crate::btree::spec_view_with(old(btree).view(), old(self).id, n2);
                &&& n2.keys.len() <= 2 * old(btree).order ==> final(btree).view() == v2
                    && final(btree).nodes_file.next_id == old(btree).nodes_file.next_id
                &&& n2.keys.len() > 2 * old(btree).order ==> crate::btree::spec_overflow_fixed(
                    v2,
                    final(btree).view(),
                    old(self).id,
                    old(btree).nodes_file.next_id,
                )
            }),
        decreases fuel, 3int,
    {
        let ghost v2 = crate::btree::spec_view_with(
            btree.view(),
            self.id,
            crate::btree::spec_basic_insert(self@, new_record, left_child, right_child),
        );
        proof {
            assert(v2.in_tree(self.id));
            assert(v2.shape_ok(self.id));
            assert(self.id < usize::MAX);
            crate::btree::lemma_insert_pos(self@.keys, new_record.key);
        }
        self.basic_insert(btree, &new_record, left_child, right_child);
        proof {
            crate::node::lemma_normalize_well_shaped(self@);
            assert forall|id: u64| #[trigger] btree.in_tree(id) implies btree.nodes_file.readable(id)
                && btree.node(id) == v2.nodes[id] && id < btree.nodes_file.next_id by {
                assert(old(btree).in_tree(id));
                assert(old(btree).nodes_file.readable(id));
                if id != self.id {
                    assert(v2.in_tree(id));
                    assert(v2.shape_ok(id));
                    crate::btree::lemma_kept_shaped(old(btree).node(id), btree.node(id));
                }
            }
            assert(btree.view().nodes =~= v2.nodes);
            assert(btree.view() == v2);
            crate::btree::lemma_kept_below_with(
                old(btree).view(),
                old(self).id,
                crate::btree::spec_basic_insert(old(self)@, new_record, left_child, right_child),
                old(btree).height(self.id),
            );
        }
        let ghost bh = *btree;
        self.handle_overflow(btree, Ghost(fuel));
        proof {
            crate::btree::lemma_frame_trans(*old(btree), bh, *btree);
            let h = old(btree).height(old(self).id);
            assert(v2 == crate::btree::spec_view_with(
                old(btree).view(),
                old(self).id,
                crate::btree::spec_basic_insert(old(self)@, new_record, left_child, right_child),
            ));
            assert(crate::btree::spec_kept_below(old(btree).view(), v2, h));
            assert(crate::btree::spec_kept_below(v2, btree.view(), h));
            crate::btree::lemma_kept_below_trans(old(btree).view(), v2, btree.view(), h, h, h);
        }
        Ok(())
    }

    /// Rebalances after this node's record count changed: evens out with a
    /// neighbour or splits when overfull; evens out with a neighbour or
    /// merges when short; makes the only child the root when an empty root.
    fn handle_overflow(&mut self, btree: &mut BTree, Ghost(fuel): Ghost<nat>)
        requires
            spec_fix_pre(*old(btree), old(self)@, fuel),
        ensures
            final(btree).wf(),
            final(btree).data_file == old(btree).data_file,
            final(btree).order == old(btree).order,
            old(self)@.keys.len() <= 2 * old(btree).order ==> final(btree).nodes_file.next_id
                == old(btree).nodes_file.next_id && final(btree).tree_height() <= old(btree).tree_height(),
            crate::contents::spec_records(final(btree).view()) == crate::contents::spec_records(old(btree).view()),
            final(btree).nodes_file.next_id >= old(btree).nodes_file.next_id,
            crate::btree::spec_kept_below(
                old(btree).view(),
                final(btree).view(),
                old(btree).height(old(self).id),
            ),
            old(self)@.keys.len() <= 2 * old(btree).order ==> forall|id: u64| #[trigger]
                final(btree).in_tree(id) ==> old(btree).in_tree(id),
            crate::btree::spec_store_frame(*old(btree), *final(btree)),
            !spec_needs_fix(*old(btree), old(self)@) && !(old(btree).is_root(old(self).id)
                && old(self)@.keys.len() == 0) ==> final(btree).view() == old(btree).view(),
            old(self)@.keys.len() > 2 * old(btree).order ==> {
                &&& crate::btree::spec_grown(
                    old(btree).view(),
                    final(btree).view(),
                    old(btree).nodes_file.next_id,
                    final(btree).nodes_file.next_id,
                )
                &&& final(btree).tree_height() <= old(btree).tree_height() + 1
                &&& final(btree).nodes_file.next_id + old(btree).height(old(self).id)
                    <= old(btree).nodes_file.next_id + old(btree).tree_height() + 2
                &&& crate::btree::spec_partner(old(btree).view(), old(self).id, true) is Ok ==> {
                    &&& crate::btree::spec_evened(old(btree).view(), final(btree).view(), old(self).id, true)
                    &&& final(btree).nodes_file.next_id == old(btree).nodes_file.next_id
                }
                &&& crate::btree::spec_partner(old(btree).view(), old(self).id, true) is Err
                    ==> crate::btree::spec_split_layout(
                    old(btree).view(),
                    final(btree).view(),
                    old(self).id,
                    old(btree).nodes_file.next_id,
                )
            },
            old(self)@.keys.len() < old(btree).order && !old(btree).is_root(old(self).id) ==> {
                &&& crate::btree::spec_partner(old(btree).view(), old(self).id, false) is Ok
                    ==> crate::btree::spec_evened(old(btree).view(), final(btree).view(), old(self).id, false)
                &&& crate::btree::spec_partner(old(btree).view(), old(self).id, false) is Err
                    ==> crate::btree::spec_merge_layout(old(btree).view(), final(btree).view(), old(self).id)
            },
            old(btree).is_root(old(self).id) && old(self)@.keys.len() == 0 ==> {
                &&& final(btree).root_id == old(self)@.children[0]
                &&& !final(btree).in_tree(old(self).id)
            },
        decreases fuel, 2int,
    {
        let order = btree.order;
        let ghost v = btree.view();
        proof {
            assert(v.in_tree(self.id));
            assert(v.shape_ok(self.id));
        }
        if self.keys.len() > 2 * order {
            let r = self.compensate_insertion(btree);
            if let Ok(_) = r {
                return;
            }
            let ghost bs = *btree;
            self.split(btree, Ghost(fuel));
            proof {
                crate::btree::lemma_frame_trans(*old(btree), bs, *btree);
            }
        } else if self.keys.len() < order && self.id != btree.root_id.unwrap() {
            let r = self.compensate_deletion(btree);
            if let Ok(_) = r {
                return;
            }
            let ghost bm = *btree;
            self.merge(btree, Ghost(fuel));
            proof {
                crate::btree::lemma_frame_trans(*old(btree), bm, *btree);
            }
        } else if self.keys.len() == 0 && self.is_leaf {
            let ghost r = self.id;
            proof {
                assert(btree.is_root(self.id));
                assert(self@.children.len() == 1);
                assert(self@.children[0] is None);
                assert forall|id: u64| #[trigger] v.in_tree(id) implies id == r by {
                    if id != r {
                        assert(v.shape_ok(id));
                        let pp = v.nodes[id].parent_node_id->0;
                        crate::btree::lemma_children_parent(v, r, pp, id);
                        assert(v.height(pp) <= v.tree_height());
                    }
                }
                assert(v.nodes[r].children =~= seq![None::<u64>]);
                crate::contents::lemma_childless_inorder(v, r);
                crate::btree::lemma_wf_stored(*btree, self.id);
            }
            let ghost ba = *btree;
            btree.root_id = self.children[0];
            let ghost bb = *btree;
            self.is_deleted = true;
            btree.update_node(self);
            let ghost bc = *btree;
            let ghost hb = btree.heights@;
            btree.heights = Ghost(btree.heights@.remove(self.id));
            proof {
                crate::btree::lemma_frame_congr(ba, bb, bc);
                crate::btree::lemma_frame_drop(bc, *btree, r);
                crate::btree::lemma_frame_trans(ba, bc, *btree);
                assert(hb == v.heights);
                assert forall|k: u64| !#[trigger] btree.heights@.dom().contains(k) by {
                    if hb.dom().contains(k) {
                        assert(v.in_tree(k));
                    }
                }
                assert(btree.heights@.dom() =~= Set::<u64>::empty());
                assert(btree.view().heights.dom() =~= Set::<u64>::empty());
                assert forall|id: u64| #[trigger] btree.in_tree(id) implies false by {}
            }
        } else if self.keys.len() == 0 {
            proof {
                assert(btree.is_root(self.id));
                assert(!self@.is_leaf);
                assert(crate::btree::spec_child(self@.children, 0) == self@.children[0]->0);
                crate::btree::lemma_wf_stored(*btree, self.id);
            }
            let ghost c = self@.children[0]->0;
            let ghost r = self.id;
            proof {
                assert(v.in_tree(c));
                assert(v.height(c) + 1 == v.height(r));
            }
            let ghost b_pre = *btree;
            btree.root_id = self.children[0];
            let ghost b0 = *btree;
            proof {
                assert forall|id: u64| #[trigger] b0.in_tree(id) implies spec_well_shaped(b0.node(id))
                    && b0.node(id).id == id && b0.node(id).keys.len() <= spec_max_keys(b0.order as nat) by {
                    assert(b_pre.in_tree(id));
                }
                assert(b0.store_ok()) by {
                    assert forall|id: u64| #[trigger] b0.in_tree(id) implies b0.nodes_file.readable(id)
                        && id < b0.nodes_file.next_id by {
                        assert(b_pre.in_tree(id));
                    }
                }
            }
            if let Some(child_id) = self.children[0] {
                let mut node = btree.fetch(child_id);
                node.parent_node_id = None;
                let ghost b1 = *btree;
                btree.update_node(&node);
                proof {
                    crate::btree::lemma_frame_trans(b0, b1, *btree);
                    crate::node::lemma_normalize_well_shaped(node@);
                    assert forall|id: u64| #[trigger] b0.in_tree(id) implies btree.nodes_file.readable(id)
                        && btree.node(id) == (if id == c { node@ } else { v.nodes[id] }) by {
                        assert(b1.in_tree(id));
                        assert(b1.view().nodes[id] == b0.view().nodes[id]);
                        assert(v.in_tree(id));
                        assert(v.shape_ok(id));
                        if id != c {
                            crate::btree::lemma_kept_shaped(b1.node(id), btree.node(id));
                        }
                    }
                }
            }
            let ghost b2 = *btree;
            proof {
                if b2 == b0 {
                    crate::btree::lemma_frame_kept(b0, b2);
                }
            }
            self.is_deleted = true;
            btree.update_node(self);
            let ghost b3 = *btree;
            btree.heights = Ghost(btree.heights@.remove(self.id));
            proof {
                crate::btree::lemma_frame_trans(b0, b2, b3);
                crate::btree::lemma_frame_drop(b3, *btree, r);
                crate::btree::lemma_frame_trans(b0, b3, *btree);
                crate::btree::lemma_frame_congr(b_pre, b0, *btree);
                assert forall|id: u64| #[trigger] btree.in_tree(id) implies btree.nodes_file.readable(id)
                    && id < btree.nodes_file.next_id && btree.node(id) == (if id == c {
                    NodeView { parent_node_id: None, ..v.nodes[c] }
                } else {
                    v.nodes[id]
                }) by {
                    assert(b0.in_tree(id));
                    assert(b2.nodes_file.readable(id));
                    assert(v.in_tree(id));
                    assert(v.shape_ok(id));
                    crate::btree::lemma_kept_shaped(b2.node(id), btree.node(id));
                }
                let w = btree.view();
                assert(w.nodes.dom() =~= w.heights.dom());
                crate::btree::lemma_collapse_wf(v, w, r, c);
                crate::contents::lemma_collapse_records(v, w, r, c);
            }
        } else {
            proof {
                crate::btree::lemma_frame_kept(*old(btree), *btree);
                assert(v.size_ok(self.id));
                assert forall|id: u64| #[trigger] v.in_tree(id) implies v.shape_ok(id) && v.size_ok(id) by {}
            }
        }
    }
}

} // verus!

verus! {

impl Node {
    /// Splits this overfull node: the upper half goes to a new node, the
    /// middle record up into the parent (a new root when there is none).
    #[verifier::spinoff_prover]
    #[verifier::rlimit(60)]
    fn split(&mut self, btree: &mut BTree, Ghost(fuel): Ghost<nat>)
        requires
            old(btree).wf_except(old(self).id),
            old(btree).in_tree(old(self).id),
            old(self)@ == old(btree).node(old(self).id),
            old(self)@.keys.len() == 2 * old(btree).order + 1,
            fuel >= old(btree).tree_height() - old(btree).height(old(self).id) + 2,
            old(btree).nodes_file.next_id + 2 * fuel + 2 < usize::MAX,
            crate::contents::spec_ordered(old(btree).view()),
        ensures
            final(btree).wf(),
            final(btree).data_file == old(btree).data_file,
            final(btree).order == old(btree).order,
            crate::contents::spec_records(final(btree).view()) == crate::contents::spec_records(old(btree).view()),
            final(btree).nodes_file.next_id >= old(btree).nodes_file.next_id + 1,
            crate::btree::spec_grown(
                old(btree).view(),
                final(btree).view(),
                old(btree).nodes_file.next_id,
                final(btree).nodes_file.next_id,
            ),
            final(btree).tree_height() <= old(btree).tree_height() + 1,
            final(btree).nodes_file.next_id + old(btree).height(old(self).id) <= old(btree).nodes_file.next_id
                + old(btree).tree_height() + 2,
            crate::btree::spec_store_frame(*old(btree), *final(btree)),
            crate::btree::spec_split_layout(
                old(btree).view(),
                final(btree).view(),
                old(self).id,
                old(btree).nodes_file.next_id,
            ),
            crate::btree::spec_kept_below(
                old(btree).view(),
                final(btree).view(),
                old(btree).height(old(self).id),
            ),
        decreases fuel, 1int,
    {
        let ghost v = btree.view();
        let ghost x = self.id;
        let ghost s = self@;
        let ghost h = btree.height(self.id);
        let ghost b_start = *btree;
        proof {
            crate::btree::lemma_wf_stored(*btree, x);
            assert(v.in_tree(x));
            assert(v.shape_ok(x));
        }
        let order = btree.order;
        let mut new_node = Node::new(self.is_leaf, btree.nodes_file.next_id, order);
        let ghost n = new_node.id;
        btree.create_node(&new_node);
        proof {
            assert forall|id: u64| #[trigger] btree.in_tree(id) implies btree.nodes_file.readable(id)
                && id < btree.nodes_file.next_id && btree.node(id) == b_start.node(id)
                && spec_well_shaped(btree.node(id)) && btree.node(id).id == id
                && btree.node(id).keys.len() <= spec_max_keys(btree.order as nat) by {
                assert(b_start.in_tree(id));
                assert(b_start.nodes_file.readable(id));
                crate::btree::lemma_kept_shaped(b_start.node(id), btree.node(id));
            }
        }
        let ghost b_created = *btree;
        let new_root = self.parent_node_id.is_none();
        let mut parent = match self.parent_node_id {
            Some(parent_id) => {
                proof {
                    assert(v.in_tree(parent_id));
                }
                btree.fetch(parent_id)
            },
            None => btree.create_new_root(false),
        };
        let ghost p = parent.id;
        let ghost b_parent = *btree;
        proof {
            if !new_root {
                assert(b_created.in_tree(p));
                assert(b_parent.view() == b_created.view());
            }
            assert forall|id: u64| #[trigger] b_parent.in_tree(id) implies b_parent.node(id) == v.nodes[id]
                && b_parent.nodes_file.readable(id) by {
                assert(b_created.in_tree(id));
                assert(b_parent.view().nodes[id] == b_created.view().nodes[id]);
            }
        }
        new_node.keys = self.keys.split_off(order + 1);
        new_node.children = self.children.split_off(order + 1);
        proof {
            assert forall|i: int|
                0 <= i < new_node@.children.len() && new_node@.children[i] is Some implies btree.in_tree(
                #[trigger] spec_child(new_node@.children, i),
            ) by {
                assert(spec_child(new_node@.children, i) == spec_child(s.children, order + 1 + i));
            }
        }
        btree.set_parents(&new_node.children, new_node.id);
        let ghost b_set = *btree;
        let tail = self.keys.split_off(order);
        let parent_record = tail[0];
        self.parent_node_id = Some(parent.id);
        new_node.parent_node_id = Some(parent.id);
        proof {
            if new_root {
                assert(!v.in_tree(p));
            } else {
                assert(v.in_tree(p));
                assert(!v.nodes[p].is_leaf) by {
                    let j = choose|j: int| 0 <= j < v.nodes[p].children.len() && v.nodes[p].children[j] == Some(x);
                    assert(v.shape_ok(p));
                    assert(v.nodes[p].children[j] is Some);
                }
                crate::btree::lemma_children_parent(v, x, p, x);
            }
        }
        btree.update_nodes(&new_node, self, &parent);
        let ghost b_u3 = *btree;
        if new_root {
            btree.heights = Ghost(btree.heights@.insert(n, h).insert(p, h + 1));
        } else {
            btree.heights = Ghost(btree.heights@.insert(n, h));
        }
        let ghost w2 = crate::btree::spec_view_with(
            btree.view(),
            p,
            crate::btree::spec_basic_insert(parent@, parent_record, Some(x), Some(n)),
        );
        proof {
            let o = v.order;
            assert(self@ == crate::btree::spec_split_left(s, o, p)) by {
                assert(self@.keys =~= s.keys.subrange(0, o as int));
                assert(self@.children =~= s.children.subrange(0, o as int + 1));
            }
            assert(new_node@ == crate::btree::spec_split_right(s, o, n, p));
            assert(parent_record == s.keys[o as int]);
            crate::node::lemma_normalize_well_shaped(new_node@);
            crate::node::lemma_normalize_well_shaped(self@);
            assert(parent@ == (if new_root { crate::btree::spec_empty_root(p) } else { v.nodes[p] }));
            assert(!v.in_tree(n));
            assert forall|id: u64| #[trigger] v.in_tree(id) implies !v.nodes[id].children.contains(Some(n)) by {
                if v.nodes[id].children.contains(Some(n)) {
                    assert(v.shape_ok(id));
                    if v.nodes[id].is_leaf {
                        let j = choose|j: int| 0 <= j < v.nodes[id].children.len() && v.nodes[id].children[j] == Some(n);
                        assert(v.nodes[id].children[j] is Some);
                    }
                    crate::btree::lemma_children_parent(v, x, id, n);
                }
            }
            if new_root {
                assert(v.is_root(x));
                assert(!v.in_tree(p));
                assert forall|id: u64| #[trigger] v.in_tree(id) implies !v.nodes[id].children.contains(Some(p)) by {
                    if v.nodes[id].children.contains(Some(p)) {
                        assert(v.shape_ok(id));
                        if v.nodes[id].is_leaf {
                            let j = choose|j: int| 0 <= j < v.nodes[id].children.len() && v.nodes[id].children[j] == Some(p);
                            assert(v.nodes[id].children[j] is Some);
                        }
                        crate::btree::lemma_children_parent(v, x, id, p);
                    }
                }
            } else {
                assert(!v.is_root(x));
            }
            assert forall|id: u64| #[trigger] v.in_tree(id) && id != x && id != p implies w2.nodes[id] == (
            if crate::btree::spec_split_right(s, o, n, p).children.contains(Some(id)) {
                spec_with_parent(v.nodes[id], n)
            } else {
                v.nodes[id]
            }) && btree.nodes_file.readable(id) by {
                assert(b_parent.in_tree(id));
                assert(b_set.in_tree(id));
                assert(b_set.nodes_file.readable(id));
                assert(id != n);
                assert(spec_well_shaped(b_set.node(id)));
            }
            assert(w2.nodes[x] == self@);
            assert(w2.nodes[n] == new_node@);
            assert(w2.nodes.dom() =~= w2.heights.dom());
            assert(crate::btree::spec_split_done(v, w2, x, n, p, new_root));
            crate::btree::lemma_split_wf(v, w2, x, n, p, new_root);
            crate::btree::lemma_split_parent_children(v, w2, x, n, p, new_root);
            crate::contents::lemma_split_records(v, w2, x, n, p, new_root);
            if !new_root {
                assert(v.size_ok(p));
            }
            assert forall|id: u64| #[trigger] btree.in_tree(id) implies btree.nodes_file.readable(id)
                && id < btree.nodes_file.next_id by {
                if id != n && id != p && id != x {
                    assert(v.in_tree(id));
                }
            }
        }
        let ghost bcall = *btree;
        proof {
            assert(!new_node@.is_deleted);
            assert(!parent@.is_deleted);
            crate::btree::lemma_split_frame(b_start, b_created, b_parent, b_set, b_u3, bcall, x, n, p, new_root);
        }
        proof {
            crate::btree::lemma_split_kept_below(v, w2, x, n, p, new_root);
            crate::btree::lemma_kept_below_without(
                v,
                bcall.view(),
                p,
                crate::btree::spec_basic_insert(parent@, parent_record, Some(x), Some(n)),
                h,
            );
            assert(bcall.height(p) == h + 1);
        }
        let ghost n2 = crate::btree::spec_basic_insert(parent@, parent_record, Some(x), Some(n));
        proof {
            assert(bcall.view().nodes[x] == w2.nodes[x]);
            assert(bcall.view().nodes[n] == w2.nodes[n]);
            if new_root {
                crate::btree::lemma_insert_pos(parent@.keys, parent_record.key);
                assert(n2.keys =~= seq![parent_record]);
                assert(n2.children =~= seq![Some(x), Some(n)]);
                assert(p == n + 1);
                assert(bcall.root_id == Some(p));
            }
        }
        parent.insert_rec(btree, parent_record, Some(self.id), Some(new_node.id), Ghost((fuel - 1) as nat)).unwrap();
        proof {
            crate::btree::lemma_frame_trans(b_start, bcall, *btree);
            crate::btree::lemma_kept_below_trans(v, bcall.view(), btree.view(), h, h + 1, h);
            if new_root {
                assert(btree.view() == crate::btree::spec_view_with(bcall.view(), p, n2));
            } else {
                if n2.keys.len() <= 2 * v.order {
                    assert(btree.view() == crate::btree::spec_view_with(bcall.view(), p, n2));
                }
            }
            assert(crate::btree::spec_kept_below(w2, btree.view(), h + 1)) by {
                crate::btree::lemma_kept_below_with(w2, p, bcall.view().nodes[p], h + 1);
                assert(crate::btree::spec_view_with(w2, p, bcall.view().nodes[p]).nodes =~= bcall.view().nodes);
                crate::btree::lemma_kept_below_trans(w2, bcall.view(), btree.view(), h + 1, h + 1, h + 1);
            }
            crate::btree::lemma_children_relinked(w2, btree.view(), p, n);
            crate::btree::lemma_split_layout(v, bcall.view(), btree.view(), x, n, p);
        }
    }
}

} // verus!

verus! {

impl Node {
    /// Merges this short node, whose neighbours have no record to spare,
    /// with its right neighbour (the left one when it is the last child) and
    /// the parent's record between them into the left one of the two; the
    /// parent, a record shorter, is rebalanced in turn.
    #[verifier::spinoff_prover]
    #[verifier::rlimit(60)]
    fn merge(&mut self, btree: &mut BTree, Ghost(fuel): Ghost<nat>)
        requires
            old(btree).wf_except(old(self).id),
            old(btree).in_tree(old(self).id),
            !old(btree).is_root(old(self).id),
            old(self)@ == old(btree).node(old(self).id),
            old(self)@.keys.len() + 1 == old(btree).order,
            crate::btree::spec_partner(old(btree).view(), old(self).id, false) is Err,
            fuel >= old(btree).tree_height() - old(btree).height(old(self).id) + 2,
            old(btree).nodes_file.next_id + 2 * fuel + 2 < usize::MAX,
            crate::contents::spec_ordered(old(btree).view()),
        ensures
            crate::contents::spec_records(final(btree).view()) == crate::contents::spec_records(old(btree).view()),
            final(btree).wf(),
            final(btree).data_file == old(btree).data_file,
            final(btree).order == old(btree).order,
            final(btree).nodes_file.next_id == old(btree).nodes_file.next_id,
            final(btree).tree_height() <= old(btree).tree_height(),
            crate::btree::spec_kept_below(
                old(btree).view(),
                final(btree).view(),
                old(btree).height(old(self).id),
            ),
            forall|id: u64| #[trigger] final(btree).in_tree(id) ==> old(btree).in_tree(id),
            crate::btree::spec_merge_layout(old(btree).view(), final(btree).view(), old(self).id),
            crate::btree::spec_store_frame(*old(btree), *final(btree)),
        decreases fuel, 1int,
    {
        let ghost v = btree.view();
        let ghost x = self.id;
        let ghost s0 = self@;
        let (mut parent, position_in_parent) = self.get_parent(btree);
        let ghost p = parent.id;
        let ghost vp = parent@;
        let ghost b1 = *btree;
        let ghost pos = position_in_parent as int;
        proof {
            assert(v.in_tree(x));
            assert(v.shape_ok(x));
            assert(spec_child(vp.children, pos) == x);
            assert(p != x);
            assert(v.in_tree(p));
            assert(v.shape_ok(p));
            assert(v.size_ok(p));
            assert(vp == v.nodes[p]);
            assert(!vp.is_leaf) by {
                assert(vp.children[pos] is Some);
            }
            crate::btree::lemma_wf_stored(b1, x);
        }
        let ghost mut a: u64 = x;
        let ghost mut bb: u64 = x;
        let ghost mut k: int = 0;
        let mut sibling = if position_in_parent < parent.keys.len() {
            let sib_id = parent.children[position_in_parent + 1].unwrap();
            proof {
                assert(vp.children[pos + 1] is Some);
                assert(spec_child(vp.children, pos + 1) == sib_id);
                assert(v.in_tree(sib_id));
                assert(crate::btree::spec_blocked(v, sib_id, false));
            }
            let mut sibling = btree.fetch(sib_id);
            let ghost vs = sibling@;
            let ghost bs = *btree;
            let pk = parent.keys.remove(position_in_parent);
            parent.children.remove(position_in_parent + 1);
            self.keys.push(pk);
            self.keys.append(&mut sibling.keys);
            proof {
                assert(v.shape_ok(sib_id));
                assert forall|i: int|
                    0 <= i < sibling@.children.len() && sibling@.children[i] is Some implies btree.in_tree(
                    #[trigger] spec_child(sibling@.children, i),
                ) by {}
            }
            btree.set_parents(&sibling.children, self.id);
            self.children.append(&mut sibling.children);
            sibling.is_deleted = true;
            proof {
                a = x;
                crate::btree::lemma_frame_trans(*old(btree), b1, bs);
                crate::btree::lemma_frame_trans(*old(btree), bs, *btree);
                bb = sib_id;
                k = pos;
                assert(self@.keys =~= s0.keys + seq![vp.keys[pos]] + vs.keys);
                assert(self@ == crate::btree::spec_merged_node(s0, vs, vp.keys[pos]));
            }
            sibling
        } else {
            let sib_id = parent.children[position_in_parent - 1].unwrap();
            proof {
                assert(pos > 0);
                assert(vp.children[pos - 1] is Some);
                assert(spec_child(vp.children, pos - 1) == sib_id);
                assert(v.in_tree(sib_id));
                assert(crate::btree::spec_blocked(v, sib_id, false));
            }
            let mut sibling = btree.fetch(sib_id);
            let ghost vs = sibling@;
            let ghost bs = *btree;
            let pk = parent.keys.remove(position_in_parent - 1);
            parent.children.remove(position_in_parent);
            sibling.keys.push(pk);
            sibling.keys.append(&mut self.keys);
            proof {
                assert forall|i: int|
                    0 <= i < s0.children.len() && s0.children[i] is Some implies btree.in_tree(
                    #[trigger] spec_child(s0.children, i),
                ) by {}
            }
            btree.set_parents(&self.children, sibling.id);
            sibling.children.append(&mut self.children);
            self.is_deleted = true;
            proof {
                a = sib_id;
                crate::btree::lemma_frame_trans(*old(btree), b1, bs);
                crate::btree::lemma_frame_trans(*old(btree), bs, *btree);
                bb = x;
                k = pos - 1;
                assert(sibling@.keys =~= vs.keys + seq![vp.keys[pos - 1]] + s0.keys);
                assert(sibling@ == crate::btree::spec_merged_node(vs, s0, vp.keys[pos - 1]));
            }
            sibling
        };
        let ghost b3 = *btree;
        let ghost va = v.nodes[a];
        let ghost vb = v.nodes[bb];
        let ghost na = crate::btree::spec_merged_node(va, vb, vp.keys[k]);
        proof {
            assert(b3.in_tree(bb));
            assert(v.shape_ok(a) && v.shape_ok(bb));
            assert(v.size_ok(if a == x { bb } else { a }));
            assert(parent@ == crate::btree::spec_merged_parent(vp, k));
            assert(spec_well_shaped(na)) by {
                assert forall|i: int| 0 <= i < na.children.len() implies (#[trigger] na.children[i] is Some) != na.is_leaf by {
                    if i < va.children.len() {
                        assert(na.children[i] == va.children[i]);
                    } else {
                        assert(na.children[i] == vb.children[i - va.children.len()]);
                    }
                }
            }
            assert(spec_well_shaped(parent@)) by {
                assert forall|i: int| 0 <= i < parent@.children.len() implies (#[trigger] parent@.children[i] is Some) != parent@.is_leaf by {
                    if i < k + 1 {
                        assert(parent@.children[i] == vp.children[i]);
                    } else {
                        assert(parent@.children[i] == vp.children[i + 1]);
                    }
                }
            }
        }
        btree.update_nodes(&sibling, self, &parent);
        let ghost b4 = *btree;
        btree.heights = Ghost(btree.heights@.remove(bb));
        proof {
            assert(b3.in_tree(a) && b3.in_tree(bb) && b3.in_tree(p));
            assert(b4.node(bb).is_deleted);
            crate::btree::lemma_frame_drop(b4, *btree, bb);
            crate::btree::lemma_frame_trans(*old(btree), b3, b4);
            crate::btree::lemma_frame_trans(*old(btree), b4, *btree);
        }
        proof {
            let w = btree.view();
            assert(btree.node(a) == na);
            assert(btree.node(p) == parent@);
            assert forall|id: u64| #[trigger] v.in_tree(id) && id != a && id != bb && id != p implies btree.nodes_file.readable(id)
                && btree.node(id) == b3.node(id) by {
                assert(b3.in_tree(id));
                assert(b3.nodes_file.readable(id));
                assert(spec_well_shaped(b3.node(id)));
            }
            assert(crate::btree::spec_merge_done(v, w, x, a, bb, p, k)) by {
                assert(w.nodes.dom() =~= w.heights.dom());
            }
            crate::btree::lemma_merge_wf(v, w, x, a, bb, p, k);
            crate::contents::lemma_merge_records(v, w, x, a, bb, p, k);
            assert forall|id: u64| #[trigger] btree.in_tree(id) implies btree.nodes_file.readable(id)
                && id < btree.nodes_file.next_id by {
                assert(v.in_tree(id));
                assert(b1.nodes_file.readable(id));
            }
            assert(w.nodes[p] == parent@);
            crate::btree::lemma_merge_kept_below(v, w, x, a, bb, p, k);
            crate::btree::lemma_merge_facts(v, w, x, a, bb, p, k);
        }
        let ghost bcall = *btree;
        parent.handle_overflow(btree, Ghost((fuel - 1) as nat));
        proof {
            crate::btree::lemma_frame_trans(*old(btree), bcall, *btree);
            let h = v.height(x);
            assert(bcall.height(p) == h + 1);
            crate::btree::lemma_kept_below_trans(v, bcall.view(), btree.view(), h, h + 1, h);
            assert(bcall.view().in_tree(a) && bcall.height(a) == h);
            assert(!bcall.view().in_tree(bb));
            crate::btree::lemma_children_relinked(bcall.view(), btree.view(), p, a);
            assert(bcall.view().nodes[p] == crate::btree::spec_merged_parent(vp, k));
            assert(bcall.root_id == v.root);
            assert(pos == crate::btree::spec_position(vp.children, x));
            assert(vp == v.nodes[p]);
        }
    }
}

} // verus!

verus! {

impl Node {
    /// The smallest record in the subtree of this node, and the leaf that
    /// holds it.
    pub fn get_smallest_in_subtree(&self, btree: &mut BTree) -> (r: (Record, u64))
        requires
            old(btree).wf(),
            old(btree).in_tree(self.id),
            self@ == old(btree).node(self.id),
        ensures
            final(btree).wf(),
            spec_same_tree(*old(btree), *final(btree)),
            crate::btree::spec_store_frame(*old(btree), *final(btree)),
            r == crate::btree::spec_smallest(old(btree).view(), self.id),
        decreases old(btree).height(self.id),
    {
        proof {
            assert(old(btree).view().in_tree(self.id));
            assert(old(btree).view().shape_ok(self.id));
            assert(old(btree).view().size_ok(self.id));
            crate::btree::lemma_wf_stored(*old(btree), self.id);
            crate::btree::lemma_wf_except_any(old(btree).view(), self.id);
        }
        match self.children[0] {
            Some(child_id) => {
                proof {
                    assert(spec_child(self.children@, 0) == child_id);
                    assert(old(btree).view().in_tree(child_id));
                }
                let child = btree.fetch(child_id);
                let ghost mid = *btree;
                proof {
                    crate::btree::lemma_wf_same_tree(*old(btree), mid);
                }
                let r = child.get_smallest_in_subtree(btree);
                proof {
                    crate::btree::lemma_same_tree_trans(*old(btree), mid, *btree);
                    crate::btree::lemma_frame_trans(*old(btree), mid, *btree);
                }
                r
            },
            None => {
                proof {
                    btree.lemma_kept_same_tree(old(btree));
                    crate::btree::lemma_frame_kept(*old(btree), *btree);
                }
                (self.keys[0], self.id)
            },
        }
    }

    /// The largest record in the subtree of this node, and the leaf that
    /// holds it.
    pub fn get_largest_in_subtree(&self, btree: &mut BTree) -> (r: (Record, u64))
        requires
            old(btree).wf(),
            old(btree).in_tree(self.id),
            self@ == old(btree).node(self.id),
        ensures
            final(btree).wf(),
            spec_same_tree(*old(btree), *final(btree)),
            crate::btree::spec_store_frame(*old(btree), *final(btree)),
            r == crate::btree::spec_largest(old(btree).view(), self.id),
        decreases old(btree).height(self.id),
    {
        proof {
            assert(old(btree).view().in_tree(self.id));
            assert(old(btree).view().shape_ok(self.id));
            assert(old(btree).view().size_ok(self.id));
            crate::btree::lemma_wf_stored(*old(btree), self.id);
            crate::btree::lemma_wf_except_any(old(btree).view(), self.id);
        }
        let last = self.children.len() - 1;
        match self.children[last] {
            Some(child_id) => {
                proof {
                    assert(spec_child(self.children@, last as int) == child_id);
                    assert(old(btree).view().in_tree(child_id));
                }
                let child = btree.fetch(child_id);
                let ghost mid = *btree;
                proof {
                    crate::btree::lemma_wf_same_tree(*old(btree), mid);
                }
                let r = child.get_largest_in_subtree(btree);
                proof {
                    crate::btree::lemma_same_tree_trans(*old(btree), mid, *btree);
                    crate::btree::lemma_frame_trans(*old(btree), mid, *btree);
                }
                r
            },
            None => {
                proof {
                    btree.lemma_kept_same_tree(old(btree));
                    crate::btree::lemma_frame_kept(*old(btree), *btree);
                }
                (self.keys[self.keys.len() - 1], self.id)
            },
        }
    }
}

} // verus!

verus! {

impl Node {
    /// Removes the record with `deleted_key` from this node: out of a leaf
    /// with its child; in an inner node it is replaced by the smallest
    /// record to its right, taken from its leaf. Returns the leaf that lost
    /// a record.
    #[verifier::spinoff_prover]
    #[verifier::rlimit(50)]
    fn basic_delete(&mut self, btree: &mut BTree, deleted_key: u64) -> (r: u64)
        requires
            crate::btree::spec_delete_pre(old(btree).view(), old(self).id, deleted_key),
            old(btree).wf(),
            old(self)@ == old(btree).node(old(self).id),
        ensures
            r == crate::btree::spec_delete_leaf(old(btree).view(), old(self).id, deleted_key),
            final(btree).view() == crate::btree::spec_deleted(old(btree).view(), old(self).id, deleted_key),
            final(btree).wf_base(),
            final(btree).data_file == old(btree).data_file,
            final(btree).nodes_file.next_id == old(btree).nodes_file.next_id,
            crate::btree::spec_store_frame(*old(btree), *final(btree)),
    {
        let ghost v = btree.view();
        let ghost x = self.id;
        let ghost s0 = self@;
        proof {
            assert(v.in_tree(x));
            assert(v.shape_ok(x));
            crate::btree::lemma_deleted_wf(v, x, deleted_key);
            crate::btree::lemma_bsearch_range(s0.keys, deleted_key, 0, s0.keys.len() as int);
            crate::btree::lemma_wf_stored(*btree, x);
        }
        let key_position: usize = match crate::btree::bsearch(&self.keys, deleted_key) {
            Ok(i) => i,
            Err(i) => i,
        };
        if self.is_leaf {
            self.keys.remove(key_position);
            self.children.remove(key_position);
            let ghost b0 = *btree;
            btree.update_node(self);
            proof {
                assert(b0.in_tree(x));
                let w = crate::btree::spec_deleted(v, x, deleted_key);
                assert(self@ == w.nodes[x]);
                assert forall|id: u64| #[trigger] btree.in_tree(id) implies btree.nodes_file.readable(id)
                    && btree.node(id) == w.nodes[id] && id < btree.nodes_file.next_id by {
                    assert(b0.nodes_file.readable(id));
                    assert(w.in_tree(id));
                    assert(w.shape_ok(id));
                    if id != x {
                        crate::btree::lemma_kept_shaped(b0.node(id), btree.node(id));
                    } else {
                        crate::btree::lemma_kept_shaped(self@, btree.node(id));
                    }
                }
                assert(btree.view().nodes =~= w.nodes);
            }
            self.id
        } else {
            let sibling_id = self.children[key_position + 1].unwrap();
            proof {
                assert(spec_child(s0.children, key_position + 1) == sibling_id);
                assert(v.in_tree(sibling_id));
                crate::btree::lemma_wf_except_any(v, x);
            }
            let sibling = btree.fetch(sibling_id);
            let ghost b1 = *btree;
            proof {
                crate::btree::lemma_wf_same_tree(*old(btree), b1);
            }
            let (key, node_id) = sibling.get_smallest_in_subtree(btree);
            let ghost b2 = *btree;
            proof {
                crate::btree::lemma_same_tree_trans(*old(btree), b1, b2);
                crate::btree::lemma_extremes(v, sibling_id);
                crate::btree::lemma_wf_stored(b2, x);
            }
            let mut borrowing_leaf = btree.fetch(node_id);
            let ghost b3 = *btree;
            self.keys.set(key_position, key);
            borrowing_leaf.keys.remove(0);
            borrowing_leaf.children.remove(0);
            btree.update_node(self);
            let ghost b4 = *btree;
            btree.update_node(&borrowing_leaf);
            proof {
                assert(b3.in_tree(x) && b4.in_tree(node_id));
                crate::btree::lemma_frame_trans(*old(btree), b1, b2);
                crate::btree::lemma_frame_trans(*old(btree), b2, b3);
                crate::btree::lemma_frame_trans(*old(btree), b3, b4);
                crate::btree::lemma_frame_trans(*old(btree), b4, *btree);
                let w = crate::btree::spec_deleted(v, x, deleted_key);
                assert(node_id != x);
                assert(self@ == w.nodes[x]);
                assert(borrowing_leaf@ == w.nodes[node_id]);
                assert forall|id: u64| #[trigger] btree.in_tree(id) implies btree.nodes_file.readable(id)
                    && btree.node(id) == w.nodes[id] && id < btree.nodes_file.next_id by {
                    assert(b3.in_tree(id));
                    assert(b3.nodes_file.readable(id));
                    assert(w.in_tree(id));
                    assert(w.shape_ok(id));
                    assert(v.in_tree(id));
                    assert(v.shape_ok(id));
                    if id == x {
                        crate::btree::lemma_kept_shaped(self@, b4.node(id));
                        crate::btree::lemma_kept_shaped(b4.node(id), btree.node(id));
                    } else if id == node_id {
                        crate::btree::lemma_kept_shaped(borrowing_leaf@, btree.node(id));
                    } else {
                        crate::btree::lemma_kept_shaped(b3.node(id), b4.node(id));
                        crate::btree::lemma_kept_shaped(b4.node(id), btree.node(id));
                    }
                }
                assert(btree.view().nodes =~= w.nodes);
            }
            node_id
        }
    }

    /// Deletes the record with `deleted_key` from this node and rebalances
    /// the tree.
    #[verifier::spinoff_prover]
    #[verifier::rlimit(40)]
    pub fn delete(&mut self, btree: &mut BTree, deleted_key: u64) -> (r: Result<(), ()>)
        requires
            crate::btree::spec_delete_pre(old(btree).view(), old(self).id, deleted_key),
            old(btree).wf(),
            old(self)@ == old(btree).node(old(self).id),
            old(btree).nodes_file.next_id + 2 * old(btree).tree_height() + 6 < usize::MAX,
            crate::contents::spec_ordered(old(btree).view()),
            crate::contents::spec_found_at(old(btree).view(), deleted_key, old(self).id),
        ensures
            r is Ok,
            final(btree).wf(),
            final(btree).data_file == old(btree).data_file,
            final(btree).order == old(btree).order,
            final(btree).nodes_file.next_id == old(btree).nodes_file.next_id,
            final(btree).tree_height() <= old(btree).tree_height(),
            crate::contents::spec_ordered(final(btree).view()),
            crate::contents::spec_removed(
                crate::contents::spec_records(old(btree).view()),
                crate::contents::spec_records(final(btree).view()),
                deleted_key,
            ),
            crate::btree::spec_store_frame(*old(btree), *final(btree)),
            crate::btree::spec_deleted_fixed(
                crate::btree::spec_deleted(old(btree).view(), old(self).id, deleted_key),
                final(btree).view(),
                crate::btree::spec_delete_leaf(old(btree).view(), old(self).id, deleted_key),
            ),
    {
        let ghost v = btree.view();
        let ghost l = crate::btree::spec_delete_leaf(v, self.id, deleted_key);
        proof {
            crate::btree::lemma_deleted_wf(v, self.id, deleted_key);
            crate::contents::lemma_delete_records(v, self.id, deleted_key);
        }
        let deletion_node_id = self.basic_delete(btree, deleted_key);
        let ghost b0 = *btree;
        proof {
            crate::btree::lemma_wf_stored(*btree, l);
        }
        let mut deletion_node = btree.fetch(deletion_node_id);
        let ghost b1 = *btree;
        btree.update_node(&deletion_node);
        proof {
            assert(b1.view().in_tree(l));
            assert(b1.view().shape_ok(l));
            assert forall|id: u64| #[trigger] btree.in_tree(id) implies btree.nodes_file.readable(id)
                && btree.node(id) == b1.node(id) && id < btree.nodes_file.next_id by {
                assert(b1.in_tree(id));
                assert(b1.nodes_file.readable(id));
                assert(b1.view().in_tree(id));
                assert(b1.view().shape_ok(id));
                crate::btree::lemma_kept_shaped(b1.node(id), btree.node(id));
            }
            assert(btree.view().nodes =~= b1.view().nodes);
            assert(v.height(l) == 0);
            assert(v.in_tree(l));
            assert(v.size_ok(l));
            assert(btree.tree_height() == v.tree_height());
            assert(deletion_node@.keys.len() <= 2 * btree.order);
            assert(btree.view() == crate::btree::spec_deleted(v, old(self).id, deleted_key));
            assert(deletion_node.id == l);
        }
        let ghost bh = *btree;
        deletion_node.handle_overflow(btree, Ghost((btree.tree_height() + 2) as nat));
        proof {
            crate::btree::lemma_frame_trans(*old(btree), b0, b1);
            assert(b1.in_tree(l));
            crate::btree::lemma_frame_trans(*old(btree), b1, bh);
            crate::btree::lemma_frame_trans(*old(btree), bh, *btree);
        }
        Ok(())
    }
}

} // verus!

verus! {

/// How a record is shown: `[key: data_id]`, in decimal.
pub open spec fn spec_record_pretty(r: Record) -> Seq<u8> {
    seq![91u8] + crate::text::spec_decimal(r.key as nat) + seq![58u8, 32u8] + crate::text::spec_decimal(
        r.data_id as nat,
    ) + seq![93u8]
}

/// How the records of a node are shown: each in turn.
pub open spec fn spec_keys_pretty(keys: Seq<Record>) -> Seq<u8>
    decreases keys.len(),
{
    if keys.len() == 0 {
        Seq::empty()
    } else {
        spec_keys_pretty(keys.drop_last()) + spec_record_pretty(keys.last())
    }
}

impl Node {
    /// The records of this node as text: `[key: data_id]` each.
    pub fn keys_string_pretty(&self) -> (s: String)
        ensures
            s@ == crate::text::spec_ascii_chars(spec_keys_pretty(self@.keys)),
    {
        let mut out: Vec<u8> = Vec::new();
        let mut i: usize = 0;
        while i < self.keys.len()
            invariant
                i <= self@.keys.len(),
                out@ == spec_keys_pretty(self@.keys.subrange(0, i as int)),
                crate::text::spec_is_ascii(out@),
            decreases self@.keys.len() - i,
        {
            let ghost before = out@;
            let r = self.keys[i];
            out.push(91);
            crate::text::push_decimal(&mut out, r.key);
            out.push(58);
            out.push(32);
            crate::text::push_decimal(&mut out, r.data_id);
            out.push(93);
            proof {
                crate::text::lemma_decimal_ascii(r.key as nat);
                crate::text::lemma_decimal_ascii(r.data_id as nat);
                let ks = self@.keys.subrange(0, i + 1);
                assert(ks.drop_last() =~= self@.keys.subrange(0, i as int));
                assert(ks.last() == r);
                assert(out@ =~= before + spec_record_pretty(r));
                assert forall|j: int| 0 <= j < out@.len() implies #[trigger] out@[j] < 128 by {
                    if j >= before.len() {
                        let e = spec_record_pretty(r);
                        assert(out@[j] == e[j - before.len()]);
                    }
                }
            }
            i = i + 1;
        }
        proof {
            assert(self@.keys.subrange(0, i as int) =~= self@.keys);
        }
        crate::text::ascii_string(out)
    }
}

} // verus!

verus! {

impl Node {
    /// The number of records in the subtree of this node (`None` when it
    /// does not fit 64 bits).
    pub fn count_records(&self, btree: &mut BTree) -> (r: Option<u64>)
        requires
            old(btree).wf(),
            old(btree).in_tree(self.id),
            self@ == old(btree).node(self.id),
        ensures
            final(btree).wf(),
            spec_same_tree(*old(btree), *final(btree)),
            match r {
                Some(n) => n == crate::contents::spec_inorder(old(btree).view(), self.id).len(),
                None => crate::contents::spec_inorder(old(btree).view(), self.id).len() > u64::MAX,
            },
        decreases old(btree).height(self.id),
    {
        let ghost v = old(btree).view();
        let ghost id = self.id;
        proof {
            assert(v.in_tree(id));
            assert(v.shape_ok(id));
            crate::btree::lemma_wf_except_any(v, id);
            old(btree).lemma_tree_shaped(id);
            btree.lemma_kept_same_tree(old(btree));
            crate::btree::lemma_wf_same_tree(*old(btree), *btree);
        }
        let n_keys = self.keys.len();
        let mut acc: u64 = 0;
        let mut j: usize = 0;
        while j <= n_keys
            invariant
                old(btree).wf(),
                v == old(btree).view(),
                v.in_tree(id),
                v.shape_ok(id),
                self@ == v.nodes[id],
                n_keys == self@.keys.len(),
                j <= n_keys + 1,
                btree.wf(),
                spec_same_tree(*old(btree), *btree),
                acc + crate::contents::spec_inorder_from(v, id, j as int).len() == crate::contents::spec_inorder(
                    v,
                    id,
                ).len(),
            decreases n_keys + 1 - j,
        {
            let ghost rest = crate::contents::spec_inorder_from(v, id, j + 1);
            let ghost kid = if self@.is_leaf {
                Seq::<Record>::empty()
            } else {
                crate::contents::spec_inorder(v, spec_child(self@.children, j as int))
            };
            proof {
                assert(self@.children.len() == n_keys + 1);
                if !self@.is_leaf {
                    assert(self@.children[j as int] is Some);
                    let c = spec_child(self@.children, j as int);
                    assert(self@.children[j as int] == Some(c));
                    assert(v.in_tree(c) && v.height(c) < v.height(id));
                } else {
                    assert(self@.children[j as int] is None);
                }
                if j < n_keys {
                    assert(crate::contents::spec_inorder_from(v, id, j as int) == kid + seq![self@.keys[j as int]] + rest);
                } else {
                    assert(crate::contents::spec_inorder_from(v, id, j as int) == kid);
                }
            }
            if !self.is_leaf {
                let c = self.children[j].unwrap();
                proof {
                    assert(c == spec_child(self@.children, j as int));
                    crate::btree::lemma_wf_stored(*btree, c);
                }
                let ghost before = *btree;
                let child = btree.fetch(c);
                let ghost mid = *btree;
                proof {
                    crate::btree::lemma_same_tree_trans(*old(btree), before, mid);
                    crate::btree::lemma_wf_same_tree(*old(btree), mid);
                }
                let k = child.count_records(btree);
                proof {
                    crate::btree::lemma_same_tree_trans(*old(btree), mid, *btree);
                    crate::btree::lemma_wf_same_tree(*old(btree), *btree);
                }
                match k {
                    Some(k) => {
                        match acc.checked_add(k) {
                            Some(a) => {
                                acc = a;
                            },
                            None => {
                                return None;
                            },
                        }
                    },
                    None => {
                        return None;
                    },
                }
            }
            if j < n_keys {
                match acc.checked_add(1) {
                    Some(a) => {
                        acc = a;
                    },
                    None => {
                        return None;
                    },
                }
            }
            j = j + 1;
        }
        Some(acc)
    }
}

} // verus!
