use vstd::prelude::*;

use crate::data::Data;
use crate::data_file::DataFile;
use crate::node::{Node, NodeView, spec_byte_size, spec_max_keys, spec_normalize, spec_well_shaped};
use crate::nodes_file::{NodesFile, spec_entry_kept, spec_store_kept};
use crate::record::Record;

verus! {

/// The data that goes with a record being inserted.
#[allow(non_camel_case_types)]
#[derive(Debug)]
pub enum Inserted_Data {
    /// New data, written to a new data slot.
    NewData(Data),
    /// The data slot of an existing record.
    ExistingData(u64),
    /// No data: the record points at the next free data slot.
    NoData,
}

/// A B-tree of order `order` over the node store, with the records' data in
/// the data store.
pub struct BTree {
    pub root_id: Option<u64>,
    pub nodes_file: NodesFile,
    pub data_file: DataFile,
    pub order: usize,
    /// The ids of the nodes in the tree, each with its height (0 for a leaf).
    pub heights: Ghost<Map<u64, nat>>,
}

/// No child id occurs twice.
pub open spec fn spec_children_distinct(ch: Seq<Option<u64>>) -> bool {
    forall|i: int, j: int|
        0 <= i < j < ch.len() && ch[i] is Some ==> #[trigger] ch[i] != #[trigger] ch[j]
}

/// The id of a present child.
pub open spec fn spec_child(ch: Seq<Option<u64>>, i: int) -> u64 {
    ch[i]->0
}

/// The tree as mathematical values: its root, the height of each node in
/// it, the nodes and the order.
pub struct TreeView {
    pub root: Option<u64>,
    pub heights: Map<u64, nat>,
    pub nodes: Map<u64, NodeView>,
    pub order: nat,
}

impl TreeView {
    pub open spec fn in_tree(&self, id: u64) -> bool {
        self.heights.contains_key(id)
    }

    pub open spec fn height(&self, id: u64) -> nat {
        self.heights[id]
    }

    pub open spec fn is_root(&self, id: u64) -> bool {
        self.root == Some(id)
    }

    /// Height of the tree (of its root).
    pub open spec fn tree_height(&self) -> nat {
        match self.root {
            Some(r) => self.heights[r],
            None => 0,
        }
    }

    /// Node `id` is in page shape and linked both ways with its children and
    /// its parent.
    pub open spec fn shape_ok(&self, id: u64) -> bool {
        let n = self.nodes[id];
        &&& self.nodes.contains_key(id)
        &&& spec_well_shaped(n)
        &&& n.id == id
        &&& !n.is_deleted
        &&& n.is_leaf == (self.height(id) == 0)
        &&& n.keys.len() <= spec_max_keys(self.order)
        &&& spec_children_distinct(n.children)
        &&& forall|i: int|
            0 <= i < n.children.len() && !n.is_leaf ==> {
                let c = #[trigger] spec_child(n.children, i);
                &&& self.in_tree(c)
                &&& self.height(c) + 1 == self.height(id)
                &&& self.nodes[c].parent_node_id == Some(id)
            }
        &&& if self.is_root(id) {
            n.parent_node_id is None
        } else {
            &&& n.parent_node_id is Some
            &&& self.in_tree(n.parent_node_id->0)
            &&& self.nodes[n.parent_node_id->0].children.contains(Some(id))
        }
    }

    /// Node `id` holds between `order` and `2 * order` records (the root at
    /// least one).
    pub open spec fn size_ok(&self, id: u64) -> bool {
        let k = self.nodes[id].keys.len();
        &&& k <= 2 * self.order
        &&& if self.is_root(id) {
            k >= 1
        } else {
            k >= self.order
        }
    }

    /// The root and the heights agree.
    pub open spec fn structure_ok(&self) -> bool {
        &&& self.order >= 1
        &&& spec_max_keys(self.order) <= usize::MAX
        &&& match self.root {
            None => self.heights.dom() =~= Set::empty(),
            Some(r) => self.in_tree(r),
        }
        &&& forall|id: u64| #[trigger] self.in_tree(id) ==> self.height(id) <= self.tree_height()
    }

    /// A well-formed B-tree.
    pub open spec fn wf(&self) -> bool {
        &&& self.structure_ok()
        &&& forall|id: u64| #[trigger] self.in_tree(id) ==> self.shape_ok(id) && self.size_ok(id)
    }

    /// A well-formed B-tree but for the record count of node `x`.
    pub open spec fn wf_except(&self, x: u64) -> bool {
        &&& self.structure_ok()
        &&& forall|id: u64| #[trigger]
            self.in_tree(id) ==> self.shape_ok(id) && (id != x ==> self.size_ok(id))
    }
}

impl BTree {
    /// The stored node `id`.
    pub open spec fn node(&self, id: u64) -> NodeView {
        self.nodes_file.entry(id)
    }

    pub open spec fn in_tree(&self, id: u64) -> bool {
        self.heights@.contains_key(id)
    }

    pub open spec fn height(&self, id: u64) -> nat {
        self.heights@[id]
    }

    pub open spec fn is_root(&self, id: u64) -> bool {
        self.root_id == Some(id)
    }

    /// The tree as mathematical values.
    pub open spec fn view(&self) -> TreeView {
        TreeView {
            root: self.root_id,
            heights: self.heights@,
            nodes: Map::new(|id: u64| self.in_tree(id), |id: u64| self.node(id)),
            order: self.order as nat,
        }
    }

    /// Height of the tree (of its root).
    pub open spec fn tree_height(&self) -> nat {
        self.view().tree_height()
    }

    /// The stores agree with the tree: its nodes can be fetched, and ids are
    /// fresh from `next_id` on.
    pub open spec fn store_ok(&self) -> bool {
        &&& self.nodes_file.wf()
        &&& self.data_file.wf()
        &&& self.nodes_file.order == self.order
        &&& self.order >= 1
        &&& self.nodes_file.next_id < usize::MAX
        &&& forall|id: u64| #[trigger]
            self.in_tree(id) ==> self.nodes_file.readable(id) && id < self.nodes_file.next_id
    }

    /// The root's height is below the number of nodes made so far.
    pub open spec fn root_ok(&self) -> bool {
        match self.root_id {
            None => true,
            Some(r) => self.height(r) < self.nodes_file.next_id,
        }
    }

    /// The stores agree with the tree.
    pub open spec fn wf_base(&self) -> bool {
        &&& self.store_ok()
        &&& self.root_ok()
    }

    /// The tree is well formed.
    pub open spec fn wf(&self) -> bool {
        &&& self.wf_base()
        &&& self.view().wf()
    }

    /// The tree is well formed but for the record count of node `x`.
    pub open spec fn wf_except(&self, x: u64) -> bool {
        &&& self.wf_base()
        &&& self.view().wf_except(x)
    }
}

} // verus!

verus! {

/// The position that binary search by key gives in `keys[lo..hi]`.
pub open spec fn spec_bsearch(keys: Seq<Record>, key: u64, lo: int, hi: int) -> Result<usize, usize>
    decreases hi - lo,
{
    if lo >= hi {
        Err(lo as usize)
    } else {
        let mid = lo + (hi - lo) / 2;
        if keys[mid].key == key {
            Ok(mid as usize)
        } else if keys[mid].key < key {
            spec_bsearch(keys, key, mid + 1, hi)
        } else {
            spec_bsearch(keys, key, lo, mid)
        }
    }
}

/// The keys are strictly increasing.
pub open spec fn spec_sorted(keys: Seq<Record>) -> bool {
    forall|i: int, j: int| 0 <= i < j < keys.len() ==> #[trigger] keys[i].key < #[trigger] keys[j].key
}

/// On strictly increasing keys, binary search finds the key where it is, and
/// otherwise gives the number of smaller keys.
pub proof fn lemma_bsearch_sorted(keys: Seq<Record>, key: u64, lo: int, hi: int)
    requires
        spec_sorted(keys),
        0 <= lo <= hi <= keys.len(),
        keys.len() <= usize::MAX,
        forall|i: int| 0 <= i < lo ==> #[trigger] keys[i].key < key,
        forall|i: int| hi <= i < keys.len() ==> #[trigger] keys[i].key > key,
    ensures
        match spec_bsearch(keys, key, lo, hi) {
            Ok(i) => i < keys.len() && keys[i as int].key == key,
            Err(i) => i <= keys.len() && (forall|j: int| 0 <= j < i ==> #[trigger] keys[j].key < key)
                && (forall|j: int| i <= j < keys.len() ==> #[trigger] keys[j].key > key),
        },
    decreases hi - lo,
{
    if lo < hi {
        let mid = lo + (hi - lo) / 2;
        if keys[mid].key == key {
        } else if keys[mid].key < key {
            assert forall|i: int| 0 <= i < mid + 1 implies #[trigger] keys[i].key < key by {
                if i < mid {
                    assert(keys[i].key < keys[mid].key);
                }
            }
            lemma_bsearch_sorted(keys, key, mid + 1, hi);
        } else {
            assert forall|i: int| mid <= i < keys.len() implies #[trigger] keys[i].key > key by {
                if i > mid {
                    assert(keys[mid].key < keys[i].key);
                }
            }
            lemma_bsearch_sorted(keys, key, lo, mid);
        }
    }
}

/// Binary search gives a position inside the searched range, and a found
/// position holds the key.
pub proof fn lemma_bsearch_range(keys: Seq<Record>, key: u64, lo: int, hi: int)
    requires
        0 <= lo <= hi <= keys.len(),
        keys.len() <= usize::MAX,
    ensures
        match spec_bsearch(keys, key, lo, hi) {
            Ok(i) => lo <= i < hi && keys[i as int].key == key,
            Err(i) => lo <= i <= hi,
        },
    decreases hi - lo,
{
    if lo < hi {
        let mid = lo + (hi - lo) / 2;
        if keys[mid].key == key {
        } else if keys[mid].key < key {
            lemma_bsearch_range(keys, key, mid + 1, hi);
        } else {
            lemma_bsearch_range(keys, key, lo, mid);
        }
    }
}

/// The result of searching `key` from node `id` down: the record and the
/// node it is in, or the insert position and the leaf where it would go.
pub open spec fn spec_search(v: TreeView, id: u64, key: u64) -> Result<(Record, u64), (u64, u64)>
    decreases v.height(id),
{
    let n = v.nodes[id];
    match spec_bsearch(n.keys, key, 0, n.keys.len() as int) {
        Ok(i) => Ok((n.keys[i as int], id)),
        Err(i) => match n.children[i as int] {
            Some(c) => if v.in_tree(c) && v.height(c) < v.height(id) {
                spec_search(v, c, key)
            } else {
                Err((i as u64, id))
            },
            None => Err((i as u64, id)),
        },
    }
}

/// `b` is `a` with the same tree: the same view, the same data store, and
/// the same bookkeeping of the node store.
pub open spec fn spec_same_tree(a: BTree, b: BTree) -> bool {
    &&& b.view() == a.view()
    &&& b.order == a.order
    &&& b.nodes_file.order == a.nodes_file.order
    &&& b.nodes_file.next_id == a.nodes_file.next_id
    &&& b.nodes_file.wf()
    &&& b.data_file == a.data_file
    &&& forall|id: u64| #[trigger] a.in_tree(id) ==> b.nodes_file.readable(id)
}

/// A well-formed tree stays well formed when its nodes are kept.
pub proof fn lemma_wf_same_tree(a: BTree, b: BTree)
    requires
        a.wf_base(),
        spec_same_tree(a, b),
    ensures
        b.wf_base(),
{
    assert(b.heights@ == a.view().heights);
    assert(b.root_id == a.view().root);
    assert forall|id: u64| #[trigger] b.in_tree(id) implies b.nodes_file.readable(id) && id
        < b.nodes_file.next_id by {
        assert(a.in_tree(id));
    }
}

/// Binary search of `key` among the keys of a node.
pub(crate) fn bsearch(keys: &Vec<Record>, key: u64) -> (r: Result<usize, usize>)
    ensures
        r == spec_bsearch(keys@, key, 0, keys@.len() as int),
        match r {
            Ok(i) => i < keys@.len() && keys@[i as int].key == key,
            Err(i) => i <= keys@.len(),
        },
{
    let mut lo: usize = 0;
    let n = keys.len();
    let mut hi: usize = n;
    while lo < hi
        invariant
            0 <= lo <= hi <= keys@.len(),
            n == keys@.len(),
            spec_bsearch(keys@, key, lo as int, hi as int) == spec_bsearch(
                keys@,
                key,
                0,
                keys@.len() as int,
            ),
        decreases hi - lo,
    {
        let mid = lo + (hi - lo) / 2;
        let k = keys[mid].key;
        if k == key {
            proof {
                lemma_bsearch_range(keys@, key, 0, keys@.len() as int);
            }
            return Ok(mid);
        } else if k < key {
            lo = mid + 1;
        } else {
            hi = mid;
        }
    }
    proof {
        lemma_bsearch_range(keys@, key, 0, keys@.len() as int);
    }
    Err(lo)
}

} // verus!

verus! {

/// A well-formed tree is well formed but for any one node.
pub proof fn lemma_wf_except_any(v: TreeView, x: u64)
    requires
        v.wf(),
    ensures
        v.wf_except(x),
{
}

/// Keeping the tree is transitive.
pub proof fn lemma_same_tree_trans(a: BTree, b: BTree, c: BTree)
    requires
        spec_same_tree(a, b),
        spec_same_tree(b, c),
    ensures
        spec_same_tree(a, c),
{
    assert forall|id: u64| #[trigger] a.in_tree(id) implies c.nodes_file.readable(id) by {
        assert(b.heights@ == b.view().heights);
        assert(a.heights@ == a.view().heights);
        assert(b.in_tree(id));
    }
}

impl BTree {
    /// An empty tree over the given node file and an empty data file.
    pub fn new(node_pages: Vec<Vec<u8>>, order: usize, buffer_size: usize, cache_size: usize) -> (t:
        Self)
        requires
            order >= 1,
            spec_byte_size(order as nat) <= usize::MAX,
            crate::nodes_file::spec_pages_wf(
                crate::nodes_file::spec_image(node_pages@),
                spec_byte_size(order as nat),
            ),
            buffer_size * crate::consts::MAX_RECORD_LENGTH <= usize::MAX,
        ensures
            t.wf(),
            crate::contents::spec_ordered(t.view()),
            t.root_id is None,
            t.order == order,
            t.nodes_file.pages@ == node_pages@,
            t.nodes_file.next_id == 0,
            t.nodes_file.cache@.is_empty(),
            t.nodes_file.cache_size == cache_size,
            t.data_file.file@.len() == 0,
            t.data_file.next_id == 0,
            t.data_file.buffer_size == buffer_size,
    {
        Self {
            root_id: None,
            nodes_file: NodesFile::new(node_pages, order, cache_size),
            data_file: DataFile::new(buffer_size),
            order,
            heights: Ghost(Map::empty()),
        }
    }

    pub fn get_next_id(&self) -> (id: u64)
        ensures
            id == self.nodes_file.next_id,
    {
        self.nodes_file.next_id
    }

    /// The stored node `id`.
    pub fn get_node(&mut self, id: u64) -> (n: Node)
        requires
            old(self).nodes_file.wf(),
            old(self).nodes_file.readable(id),
        ensures
            n@ == old(self).node(id),
            final(self).nodes_file.wf(),
            spec_store_kept(&old(self).nodes_file, &final(self).nodes_file),
            final(self).nodes_file.next_id == old(self).nodes_file.next_id,
            final(self).nodes_file.order == old(self).nodes_file.order,
            final(self).root_id == old(self).root_id,
            final(self).order == old(self).order,
            final(self).heights == old(self).heights,
            final(self).data_file == old(self).data_file,
            spec_store_frame(*old(self), *final(self)),
    {
        let n = self.nodes_file.get_node(id);
        proof {
            lemma_frame_kept(*old(self), *self);
        }
        n
    }

    /// Stores `node` over the node with its id.
    pub fn update_node(&mut self, node: &Node)
        requires
            old(self).nodes_file.wf(),
            node@.id < usize::MAX,
            node@.keys.len() <= spec_max_keys(old(self).nodes_file.order as nat),
            node@.children.len() <= spec_max_keys(old(self).nodes_file.order as nat) + 1,
        ensures
            final(self).nodes_file.wf(),
            final(self).nodes_file.readable(node.id),
            spec_entry_kept(node@, final(self).node(node.id)),
            forall|id: u64| #[trigger]
                old(self).nodes_file.readable(id) && id != node.id ==> final(self).nodes_file.readable(id)
                    && spec_entry_kept(old(self).node(id), final(self).node(id)),
            final(self).nodes_file.next_id == old(self).nodes_file.next_id,
            final(self).nodes_file.order == old(self).nodes_file.order,
            final(self).root_id == old(self).root_id,
            final(self).order == old(self).order,
            final(self).heights == old(self).heights,
            final(self).data_file == old(self).data_file,
            final(self).node(node.id).is_deleted == node@.is_deleted,
            old(self).in_tree(node.id) ==> spec_store_frame(*old(self), *final(self)),
    {
        self.nodes_file.update_node(node);
        proof {
            if old(self).in_tree(node.id) {
                lemma_frame_write(*old(self), *self, node.id);
            }
        }
    }

    /// Stores three nodes with distinct ids, one after the other.
    pub(crate) fn update_nodes(&mut self, first: &Node, second: &Node, third: &Node)
        requires
            old(self).nodes_file.wf(),
            first.id != second.id && first.id != third.id && second.id != third.id,
            first@.id < usize::MAX && second@.id < usize::MAX && third@.id < usize::MAX,
            first@.keys.len() <= spec_max_keys(old(self).nodes_file.order as nat),
            first@.children.len() <= spec_max_keys(old(self).nodes_file.order as nat) + 1,
            second@.keys.len() <= spec_max_keys(old(self).nodes_file.order as nat),
            second@.children.len() <= spec_max_keys(old(self).nodes_file.order as nat) + 1,
            third@.keys.len() <= spec_max_keys(old(self).nodes_file.order as nat),
            third@.children.len() <= spec_max_keys(old(self).nodes_file.order as nat) + 1,
        ensures
            final(self).nodes_file.wf(),
            final(self).nodes_file.readable(first.id),
            final(self).nodes_file.readable(second.id),
            final(self).nodes_file.readable(third.id),
            spec_well_shaped(first@) ==> final(self).node(first.id) == first@,
            spec_well_shaped(second@) ==> final(self).node(second.id) == second@,
            spec_well_shaped(third@) ==> final(self).node(third.id) == third@,
            forall|id: u64| #[trigger]
                old(self).nodes_file.readable(id) && id != first.id && id != second.id && id != third.id
                    ==> final(self).nodes_file.readable(id) && (spec_well_shaped(old(self).node(id))
                    ==> final(self).node(id) == old(self).node(id)),
            final(self).nodes_file.next_id == old(self).nodes_file.next_id,
            final(self).nodes_file.order == old(self).nodes_file.order,
            final(self).root_id == old(self).root_id,
            final(self).order == old(self).order,
            final(self).heights == old(self).heights,
            final(self).data_file == old(self).data_file,
            final(self).node(first.id).is_deleted == first@.is_deleted,
            final(self).node(second.id).is_deleted == second@.is_deleted,
            final(self).node(third.id).is_deleted == third@.is_deleted,
            old(self).in_tree(first.id) && old(self).in_tree(second.id) && old(self).in_tree(third.id)
                ==> spec_store_frame(*old(self), *final(self)),
            forall|id: u64| #[trigger]
                old(self).nodes_file.readable(id) && id != first.id && id != second.id && id != third.id
                    ==> final(self).node(id).is_deleted == old(self).node(id).is_deleted,
    {
        let ghost s0 = *self;
        self.update_node(first);
        let ghost s1 = *self;
        self.update_node(second);
        let ghost s2 = *self;
        self.update_node(third);
        proof {
            if spec_well_shaped(first@) {
                lemma_kept_shaped(first@, s1.node(first.id));
                lemma_kept_shaped(s1.node(first.id), s2.node(first.id));
                lemma_kept_shaped(s2.node(first.id), self.node(first.id));
            }
            if spec_well_shaped(second@) {
                lemma_kept_shaped(second@, s2.node(second.id));
                lemma_kept_shaped(s2.node(second.id), self.node(second.id));
            }
            if spec_well_shaped(third@) {
                lemma_kept_shaped(third@, self.node(third.id));
            }
            assert(self.node(first.id).is_deleted == s1.node(first.id).is_deleted);
            assert(self.node(second.id).is_deleted == s2.node(second.id).is_deleted);
            if s0.in_tree(first.id) && s0.in_tree(second.id) && s0.in_tree(third.id) {
                lemma_frame_trans(s0, s1, s2);
                lemma_frame_trans(s0, s2, *self);
            }
            assert forall|id: u64| #[trigger]
                s0.nodes_file.readable(id) && id != first.id && id != second.id && id != third.id
                    implies self.node(id).is_deleted == s0.node(id).is_deleted by {
                assert(s1.nodes_file.readable(id));
                assert(s2.nodes_file.readable(id));
            }
            assert forall|id: u64| #[trigger]
                s0.nodes_file.readable(id) && id != first.id && id != second.id && id != third.id
                    implies self.nodes_file.readable(id) && (spec_well_shaped(s0.node(id))
                    ==> self.node(id) == s0.node(id)) by {
                assert(s1.nodes_file.readable(id));
                assert(s2.nodes_file.readable(id));
                if spec_well_shaped(s0.node(id)) {
                    lemma_kept_shaped(s0.node(id), s1.node(id));
                    lemma_kept_shaped(s1.node(id), s2.node(id));
                    lemma_kept_shaped(s2.node(id), self.node(id));
                }
            }
        }
    }

    /// Stores a new node.
    pub fn create_node(&mut self, node: &Node)
        requires
            old(self).nodes_file.wf(),
            old(self).nodes_file.next_id < u64::MAX,
            node@.id < usize::MAX,
            node@.keys.len() <= spec_max_keys(old(self).nodes_file.order as nat),
            node@.children.len() <= spec_max_keys(old(self).nodes_file.order as nat) + 1,
        ensures
            final(self).nodes_file.wf(),
            final(self).nodes_file.readable(node.id),
            spec_entry_kept(node@, final(self).node(node.id)),
            forall|id: u64| #[trigger]
                old(self).nodes_file.readable(id) && id != node.id ==> final(self).nodes_file.readable(id)
                    && spec_entry_kept(old(self).node(id), final(self).node(id)),
            final(self).nodes_file.next_id == old(self).nodes_file.next_id + 1,
            final(self).nodes_file.order == old(self).nodes_file.order,
            final(self).root_id == old(self).root_id,
            final(self).order == old(self).order,
            final(self).heights == old(self).heights,
            final(self).data_file == old(self).data_file,
            final(self).node(node.id).is_deleted == node@.is_deleted,
            node.id == old(self).nodes_file.next_id ==> spec_store_frame(*old(self), *final(self)),
    {
        self.nodes_file.create_node(node);
        proof {
            if node.id == old(self).nodes_file.next_id {
                lemma_frame_create(*old(self), *self, node.id);
            }
        }
    }

    /// Looks `key` up from the root.
    pub fn search(&mut self, key: u64) -> (r: Result<(Record, u64), (u64, u64)>)
        requires
            old(self).wf(),
        ensures
            final(self).wf(),
            spec_same_tree(*old(self), *final(self)),
            r == match old(self).root_id {
                Some(root) => spec_search(old(self).view(), root, key),
                None => Err((0, 0)),
            },
            old(self).root_id is None ==> *final(self) == *old(self),
            spec_store_frame(*old(self), *final(self)),
            crate::contents::spec_ordered(old(self).view()) ==> {
                &&& (r is Ok) == crate::contents::spec_has_key(crate::contents::spec_records(old(self).view()), key)
                &&& r is Ok ==> crate::contents::spec_records(old(self).view()).contains(r->Ok_0.0)
                    && r->Ok_0.0.key == key
            },
    {
        proof {
            if crate::contents::spec_ordered(self.view()) {
                if let Some(root) = self.root_id {
                    assert(self.view().in_tree(root));
                    crate::contents::lemma_search_correct(self.view(), root, key);
                }
            }
        }
        match self.root_id {
            Some(id) => {
                let root = self.get_node(id);
                let ghost mid = *self;
                proof {
                    assert(old(self).in_tree(id));
                    lemma_wf_except_any(old(self).view(), id);
                    old(self).lemma_tree_shaped(id);
                    self.lemma_kept_same_tree(old(self));
                    lemma_wf_same_tree(*old(self), mid);
                }
                let r = root.search(self, key);
                proof {
                    lemma_frame_trans(*old(self), mid, *self);
                    lemma_same_tree_trans(*old(self), mid, *self);
                    lemma_wf_same_tree(*old(self), *self);
                }
                r
            },
            None => {
                proof {
                    lemma_wf_same_tree(*old(self), *self);
                    lemma_frame_kept(*old(self), *self);
                }
                Err((0, 0))
            },
        }
    }

    /// The nodes of a tree that is well formed but for one node's record count
    /// are in page shape.
    pub proof fn lemma_tree_shaped(&self, x: u64)
        requires
            self.view().wf_except(x),
        ensures
            forall|id: u64| #[trigger] self.in_tree(id) ==> spec_well_shaped(self.node(id)),
    {
        assert forall|id: u64| #[trigger] self.in_tree(id) implies spec_well_shaped(self.node(id)) by {
            assert(self.view().in_tree(id));
        }
    }

    /// After a fetch that keeps every stored node, the tree is the same.
    pub proof fn lemma_kept_same_tree(&self, old: &BTree)
        requires
            old.store_ok(),
            forall|id: u64| #[trigger] old.in_tree(id) ==> spec_well_shaped(old.node(id)),
            self.nodes_file.wf(),
            spec_store_kept(&old.nodes_file, &self.nodes_file),
            self.nodes_file.next_id == old.nodes_file.next_id,
            self.nodes_file.order == old.nodes_file.order,
            self.root_id == old.root_id,
            self.order == old.order,
            self.heights == old.heights,
            self.data_file == old.data_file,
        ensures
            spec_same_tree(*old, *self),
    {
        assert forall|id: u64| #[trigger] old.in_tree(id) implies self.nodes_file.readable(id)
            && self.node(id) == old.node(id) by {
            assert(old.nodes_file.readable(id));
            crate::node::lemma_normalize_well_shaped(old.node(id));
        }
        assert(self.view().nodes =~= old.view().nodes);
    }
}

} // verus!

verus! {

/// A node with its parent pointer set to `p`.
pub open spec fn spec_with_parent(n: NodeView, p: u64) -> NodeView {
    NodeView { parent_node_id: Some(p), ..n }
}

/// Position of the first child `Some(id)` in `children`.
pub(crate) fn position_of_child(children: &Vec<Option<u64>>, id: u64) -> (r: usize)
    requires
        children@.contains(Some(id)),
    ensures
        r < children@.len(),
        children@[r as int] == Some(id),
        forall|j: int| 0 <= j < r ==> children@[j] != Some(id),
{
    let mut i: usize = 0;
    while i < children.len()
        invariant
            i <= children@.len(),
            children@.contains(Some(id)),
            forall|j: int| 0 <= j < i ==> children@[j] != Some(id),
        decreases children@.len() - i,
    {
        if children[i] == Some(id) {
            return i;
        }
        i = i + 1;
    }
    proof {
        let j = choose|j: int| 0 <= j < children@.len() && children@[j] == Some(id);
        assert(children@[j] == Some(id));
    }
    i
}

/// Every node of the tree is stored in page shape, under its id, within
/// the room of a page.
pub open spec fn spec_stored_ok(t: BTree) -> bool {
    forall|id: u64| #[trigger]
        t.in_tree(id) ==> spec_well_shaped(t.node(id)) && t.node(id).id == id
            && t.node(id).keys.len() <= spec_max_keys(t.order as nat)
}

/// `Some(id)` occurs among the first `i` children.
pub open spec fn spec_among(children: Seq<Option<u64>>, i: int, id: u64) -> bool {
    exists|j: int| 0 <= j < i && #[trigger] children[j] == Some(id)
}

/// A node read back after a write that kept it in page shape is the node.
pub proof fn lemma_kept_shaped(a: NodeView, b: NodeView)
    requires
        spec_entry_kept(a, b),
        spec_well_shaped(a),
    ensures
        b == a,
{
    crate::node::lemma_normalize_well_shaped(a);
}

/// A tree that is well formed but for one node's record count has its nodes
/// stored in page shape.
pub proof fn lemma_wf_stored(t: BTree, x: u64)
    requires
        t.wf_base(),
        t.view().wf_except(x),
    ensures
        spec_stored_ok(t),
{
    assert forall|id: u64| #[trigger] t.in_tree(id) implies spec_well_shaped(t.node(id)) && t.node(
        id,
    ).id == id && t.node(id).keys.len() <= spec_max_keys(t.order as nat) by {
        assert(t.view().in_tree(id));
        assert(t.view().shape_ok(id));
    }
}

/// Keeping the tree keeps its invariant but for one node.
pub proof fn lemma_wf_except_same_tree(a: BTree, b: BTree, x: u64)
    requires
        a.wf_except(x),
        spec_same_tree(a, b),
    ensures
        b.wf_except(x),
        spec_stored_ok(b),
{
    lemma_wf_same_tree(a, b);
    lemma_wf_stored(b, x);
}

impl BTree {
    /// Fetches a node of the tree, keeping the tree.
    pub(crate) fn fetch(&mut self, id: u64) -> (n: Node)
        requires
            old(self).store_ok(),
            spec_stored_ok(*old(self)),
            old(self).in_tree(id),
        ensures
            n@ == old(self).node(id),
            spec_same_tree(*old(self), *final(self)),
            final(self).store_ok(),
            spec_stored_ok(*final(self)),
            spec_store_frame(*old(self), *final(self)),
    {
        let n = self.get_node(id);
        proof {
            assert forall|x: u64| #[trigger] old(self).in_tree(x) implies spec_well_shaped(
                old(self).node(x),
            ) by {}
            self.lemma_kept_same_tree(old(self));
            assert forall|x: u64| #[trigger] self.in_tree(x) implies self.nodes_file.readable(x) && x < self.nodes_file.next_id by {
                assert(old(self).in_tree(x));
            }
            assert forall|x: u64| #[trigger] self.in_tree(x) implies spec_well_shaped(self.node(x))
                && self.node(x).id == x && self.node(x).keys.len() <= spec_max_keys(self.order as nat) by {
                assert(old(self).in_tree(x));
                assert(self.view().nodes[x] == old(self).view().nodes[x]);
            }
        }
        n
    }

    /// Points every present child in `children` at parent `p`.
    pub(crate) fn set_parents(&mut self, children: &Vec<Option<u64>>, p: u64)
        requires
            old(self).store_ok(),
            spec_stored_ok(*old(self)),
            forall|i: int|
                0 <= i < children@.len() && children@[i] is Some ==> old(self).in_tree(
                    #[trigger] spec_child(children@, i),
                ),
        ensures
            final(self).store_ok(),
            spec_stored_ok(*final(self)),
            final(self).heights == old(self).heights,
            final(self).root_id == old(self).root_id,
            final(self).order == old(self).order,
            final(self).data_file == old(self).data_file,
            final(self).nodes_file.next_id == old(self).nodes_file.next_id,
            forall|id: u64| #[trigger]
                old(self).in_tree(id) ==> final(self).node(id) == (if children@.contains(Some(id)) {
                    spec_with_parent(old(self).node(id), p)
                } else {
                    old(self).node(id)
                }),
            spec_store_frame(*old(self), *final(self)),
    {
        let mut i: usize = 0;
        while i < children.len()
            invariant
                i <= children@.len(),
                self.store_ok(),
                spec_stored_ok(*self),
                self.heights == old(self).heights,
                self.root_id == old(self).root_id,
                self.order == old(self).order,
                self.data_file == old(self).data_file,
                self.nodes_file.next_id == old(self).nodes_file.next_id,
                spec_store_frame(*old(self), *self),
                forall|i: int|
                    0 <= i < children@.len() && children@[i] is Some ==> old(self).in_tree(
                        #[trigger] spec_child(children@, i),
                    ),
                forall|id: u64| #[trigger]
                    old(self).in_tree(id) ==> self.node(id) == (if spec_among(children@, i as int, id) {
                        spec_with_parent(old(self).node(id), p)
                    } else {
                        old(self).node(id)
                    }),
            decreases children@.len() - i,
        {
            let ghost before = *self;
            if let Some(id) = children[i] {
                proof {
                    assert(old(self).in_tree(spec_child(children@, i as int)));
                    assert(self.in_tree(id));
                }
                let mut node = self.get_node(id);
                assert(node@ == before.node(id));
                node.parent_node_id = Some(p);
                assert(node@ == spec_with_parent(before.node(id), p));
                let ghost mid = *self;
                proof {
                    assert forall|x: u64| #[trigger] self.in_tree(x) implies self.node(x) == before.node(x)
                        && self.nodes_file.readable(x) by {
                        assert(before.in_tree(x));
                        assert(before.nodes_file.readable(x));
                        lemma_kept_shaped(before.node(x), self.node(x));
                    }
                }
                self.update_node(&node);
                proof {
                    lemma_frame_trans(*old(self), before, mid);
                    lemma_frame_trans(*old(self), mid, *self);
                    crate::node::lemma_normalize_well_shaped(node@);
                    assert forall|x: u64| #[trigger] self.in_tree(x) && x != id implies self.node(x)
                        == mid.node(x) && self.nodes_file.readable(x) by {
                        assert(mid.in_tree(x));
                        assert(before.in_tree(x));
                        assert(mid.nodes_file.readable(x));
                        lemma_kept_shaped(mid.node(x), self.node(x));
                    }
                    assert(self.node(id) == node@);
                    assert forall|x: u64| #[trigger] self.in_tree(x) implies self.node(x) == (if x == id {
                        spec_with_parent(before.node(x), p)
                    } else {
                        before.node(x)
                    }) by {
                        if x != id {
                            assert(self.in_tree(x) && x != id);
                            assert(self.node(x) == mid.node(x));
                            assert(mid.in_tree(x));
                            assert(mid.node(x) == before.node(x));
                        }
                    }
                }
            }
            assert forall|x: u64| #[trigger] self.in_tree(x) implies self.node(x) == (if children@[i as int] == Some(x) {
                spec_with_parent(before.node(x), p)
            } else {
                before.node(x)
            }) by {
            }
            proof {
                assert forall|x: u64| #[trigger] self.in_tree(x) implies self.nodes_file.readable(x)
                    && x < self.nodes_file.next_id && spec_well_shaped(self.node(x)) && self.node(x).id == x
                    && self.node(x).keys.len() <= spec_max_keys(self.order as nat) by {
                    assert(before.in_tree(x));
                }
                assert forall|x: u64| spec_among(children@, i + 1, x) == (spec_among(children@, i as int, x)
                    || children@[i as int] == Some(x)) by {
                    if children@[i as int] == Some(x) {
                        assert(children@[i as int] == Some(x));
                    }
                    if spec_among(children@, i + 1, x) {
                        let j = choose|j: int| 0 <= j < i + 1 && #[trigger] children@[j] == Some(x);
                        if j < i {
                            assert(spec_among(children@, i as int, x));
                        }
                    }
                }
                assert forall|x: u64| #[trigger] old(self).in_tree(x) implies self.node(x) == (if spec_among(children@, (i + 1) as int, x) {
                        spec_with_parent(old(self).node(x), p)
                    } else {
                        old(self).node(x)
                    }) by {
                    assert(before.in_tree(x));
                    assert(self.in_tree(x));
                    assert(spec_among(children@, i + 1, x) == (spec_among(children@, i as int, x)
                        || children@[i as int] == Some(x)));
                    assert(before.node(x) == (if spec_among(children@, i as int, x) {
                        spec_with_parent(old(self).node(x), p)
                    } else {
                        old(self).node(x)
                    }));
                }
            }
            i = i + 1;
        }
        proof {
            assert forall|id: u64| spec_among(children@, children@.len() as int, id)
                == children@.contains(Some(id)) by {
                if children@.contains(Some(id)) {
                    let j = choose|j: int| 0 <= j < children@.len() && children@[j] == Some(id);
                    assert(spec_among(children@, children@.len() as int, id));
                }
            }
        }
    }
}

} // verus!

verus! {

/// The records of two neighbouring nodes with the parent's record between
/// them.
pub open spec fn spec_pool_keys(s: NodeView, l: NodeView, pk: Record) -> Seq<Record> {
    s.keys + seq![pk] + l.keys
}

/// The children of two neighbouring nodes, one after the other.
pub open spec fn spec_pool_children(s: NodeView, l: NodeView) -> Seq<Option<u64>> {
    s.children + l.children
}

/// The first node after spreading the pool evenly: the first half.
pub open spec fn spec_redist_small(s: NodeView, l: NodeView, pk: Record) -> NodeView {
    let pool = spec_pool_keys(s, l, pk);
    let m: int = pool.len() as int / 2;
    NodeView {
        keys: pool.subrange(0, m),
        children: spec_pool_children(s, l).subrange(0, m + 1),
        ..s
    }
}

/// The second node after spreading the pool evenly: what follows the middle
/// record.
pub open spec fn spec_redist_large(s: NodeView, l: NodeView, pk: Record) -> NodeView {
    let pool = spec_pool_keys(s, l, pk);
    let m: int = pool.len() as int / 2;
    NodeView {
        keys: pool.subrange(m + 1, pool.len() as int),
        children: spec_pool_children(s, l).subrange(m + 1, pool.len() as int + 1),
        ..l
    }
}

/// The parent after spreading the pool evenly: the middle record in place of
/// its record `kpos`.
pub open spec fn spec_redist_parent(p: NodeView, s: NodeView, l: NodeView, kpos: int) -> NodeView {
    let pool = spec_pool_keys(s, l, p.keys[kpos]);
    NodeView { keys: p.keys.update(kpos, pool[pool.len() as int / 2]), ..p }
}

/// The children of one node are not children of another one.
pub proof fn lemma_children_parent(v: TreeView, x: u64, a: u64, c: u64)
    requires
        v.wf_except(x),
        v.in_tree(a),
        v.nodes[a].children.contains(Some(c)),
        !v.nodes[a].is_leaf,
    ensures
        v.in_tree(c),
        v.nodes[c].parent_node_id == Some(a),
        v.height(c) + 1 == v.height(a),
{
    assert(v.shape_ok(a));
    let i = choose|i: int| 0 <= i < v.nodes[a].children.len() && v.nodes[a].children[i] == Some(c);
    assert(spec_child(v.nodes[a].children, i) == c);
}

/// The tree `w` is the tree `v` after the records of the neighbouring nodes
/// `s` and `l` (children of `p`, around its record `kpos`) were spread
/// evenly, with both halves between `order` and `2 * order` records.
pub open spec fn spec_redistributed(v: TreeView, w: TreeView, x: u64, s: u64, l: u64, p: u64, kpos: int) -> bool {
    &&& v.wf_except(x)
    &&& x == s || x == l
    &&& v.in_tree(s)
    &&& v.in_tree(l)
    &&& v.in_tree(p)
    &&& s != l
    &&& v.nodes[s].parent_node_id == Some(p)
    &&& v.nodes[l].parent_node_id == Some(p)
    &&& v.height(s) == v.height(l)
    &&& 0 <= kpos < v.nodes[p].keys.len()
    &&& ({
            let pool = spec_pool_keys(v.nodes[s], v.nodes[l], v.nodes[p].keys[kpos]);
            let m: int = pool.len() as int / 2;
            &&& v.order <= m <= 2 * v.order
            &&& v.order <= pool.len() - m - 1 <= 2 * v.order
        })
    &&& w.root == v.root
    &&& w.heights == v.heights
    &&& w.order == v.order
    &&& w.nodes.dom() == v.nodes.dom()
    &&& w.nodes[s] == spec_redist_small(v.nodes[s], v.nodes[l], v.nodes[p].keys[kpos])
    &&& w.nodes[l] == spec_redist_large(v.nodes[s], v.nodes[l], v.nodes[p].keys[kpos])
    &&& w.nodes[p] == spec_redist_parent(v.nodes[p], v.nodes[s], v.nodes[l], kpos)
    &&& forall|id: u64| #[trigger]
            v.in_tree(id) && id != s && id != l && id != p ==> w.nodes[id] == (if w.nodes[s].children.contains(
                Some(id),
            ) {
                spec_with_parent(v.nodes[id], s)
            } else if w.nodes[l].children.contains(Some(id)) {
                spec_with_parent(v.nodes[id], l)
            } else {
                v.nodes[id]
            })
}

/// Facts about the pooled children of a redistribution.
pub proof fn lemma_redist_pool(v: TreeView, w: TreeView, x: u64, s: u64, l: u64, p: u64, kpos: int)
    requires
        spec_redistributed(v, w, x, s, l, p, kpos),
    ensures
        ({
            let vs = v.nodes[s];
            let vl = v.nodes[l];
            let cpool = spec_pool_children(vs, vl);
            let pool = spec_pool_keys(vs, vl, v.nodes[p].keys[kpos]);
            let m: int = pool.len() as int / 2;
            &&& vs.is_leaf == vl.is_leaf
            &&& cpool.len() == pool.len() + 1
            &&& w.nodes[s].children == cpool.subrange(0, m + 1)
            &&& w.nodes[l].children == cpool.subrange(m + 1, pool.len() as int + 1)
            &&& (forall|i: int| 0 <= i < cpool.len() ==> (#[trigger] cpool[i] is Some) != vs.is_leaf)
            &&& (forall|i: int|
                0 <= i < cpool.len() && !vs.is_leaf ==> v.in_tree(#[trigger] spec_child(cpool, i))
                    && v.height(spec_child(cpool, i)) + 1 == v.height(s) && spec_child(cpool, i) != s
                    && spec_child(cpool, i) != l && spec_child(cpool, i) != p)
            &&& spec_children_distinct(cpool)
            &&& (forall|c: u64| #[trigger] cpool.contains(Some(c)) <==> (vs.children.contains(Some(c)) || vl.children.contains(Some(c))))
        }),
{
    let vs = v.nodes[s];
    let vl = v.nodes[l];
    let vp = v.nodes[p];
    let cpool = spec_pool_children(vs, vl);
    assert(v.shape_ok(s));
    assert(v.shape_ok(l));
    assert(v.shape_ok(p));
    lemma_children_parent(v, x, p, s);
    assert forall|i: int| 0 <= i < cpool.len() implies (#[trigger] cpool[i] is Some) != vs.is_leaf
        by {
        if i < vs.children.len() {
            assert(cpool[i] == vs.children[i]);
        } else {
            assert(cpool[i] == vl.children[i - vs.children.len()]);
        }
    }
    assert forall|i: int|
        0 <= i < cpool.len() && !vs.is_leaf implies v.in_tree(#[trigger] spec_child(cpool, i))
        && v.height(spec_child(cpool, i)) + 1 == v.height(s) && spec_child(cpool, i) != s
        && spec_child(cpool, i) != l && spec_child(cpool, i) != p by {
        if i < vs.children.len() {
            assert(spec_child(cpool, i) == spec_child(vs.children, i));
        } else {
            assert(spec_child(cpool, i) == spec_child(vl.children, i - vs.children.len()));
        }
    }
    assert forall|i: int, j: int|
        0 <= i < j < cpool.len() && cpool[i] is Some implies #[trigger] cpool[i] != #[trigger] cpool[j] by {
        if i < vs.children.len() && j >= vs.children.len() {
            assert(spec_child(cpool, i) == spec_child(vs.children, i));
            assert(spec_child(cpool, j) == spec_child(vl.children, j - vs.children.len()));
        } else if i < vs.children.len() {
            assert(cpool[i] == vs.children[i] && cpool[j] == vs.children[j]);
        } else {
            assert(cpool[i] == vl.children[i - vs.children.len()] && cpool[j]
                == vl.children[j - vs.children.len()]);
        }
    }
    assert forall|c: u64| #[trigger] cpool.contains(Some(c)) <==> (vs.children.contains(Some(c)) || vl.children.contains(Some(c))) by {
        if cpool.contains(Some(c)) {
            let i = choose|i: int| 0 <= i < cpool.len() && cpool[i] == Some(c);
            if i < vs.children.len() {
                assert(vs.children[i] == Some(c));
            } else {
                assert(vl.children[i - vs.children.len()] == Some(c));
            }
        }
        if vs.children.contains(Some(c)) {
            let i = choose|i: int| 0 <= i < vs.children.len() && vs.children[i] == Some(c);
            assert(cpool[i] == Some(c));
        }
        if vl.children.contains(Some(c)) {
            let i = choose|i: int| 0 <= i < vl.children.len() && vl.children[i] == Some(c);
            assert(cpool[vs.children.len() + i] == Some(c));
        }
    }
}

/// A node of `w` among the children of the new `s` or `l` comes from the pool.
pub proof fn lemma_redist_member(v: TreeView, w: TreeView, x: u64, s: u64, l: u64, p: u64, kpos: int, c: u64)
    requires
        spec_redistributed(v, w, x, s, l, p, kpos),
        w.nodes[s].children.contains(Some(c)) || w.nodes[l].children.contains(Some(c)),
    ensures
        spec_pool_children(v.nodes[s], v.nodes[l]).contains(Some(c)),
        !(w.nodes[s].children.contains(Some(c)) && w.nodes[l].children.contains(Some(c))),
{
    lemma_redist_pool(v, w, x, s, l, p, kpos);
    let vs = v.nodes[s];
    let vl = v.nodes[l];
    let cpool = spec_pool_children(vs, vl);
    let pool = spec_pool_keys(vs, vl, v.nodes[p].keys[kpos]);
    let m: int = pool.len() as int / 2;
    let i: int = if w.nodes[s].children.contains(Some(c)) {
        choose|i: int| 0 <= i < w.nodes[s].children.len() && w.nodes[s].children[i] == Some(c)
    } else {
        m + 1 + choose|i: int| 0 <= i < w.nodes[l].children.len() && w.nodes[l].children[i] == Some(c)
    };
    assert(cpool[i] == Some(c));
    if w.nodes[s].children.contains(Some(c)) && w.nodes[l].children.contains(Some(c)) {
        let j = choose|j: int| 0 <= j < w.nodes[l].children.len() && w.nodes[l].children[j] == Some(c);
        assert(cpool[m + 1 + j] == Some(c));
        let i2 = choose|i: int| 0 <= i < w.nodes[s].children.len() && w.nodes[s].children[i] == Some(c);
        assert(cpool[i2] == Some(c));
    }
}

/// The redistributed nodes themselves are well formed.
pub proof fn lemma_redist_halves(v: TreeView, w: TreeView, x: u64, s: u64, l: u64, p: u64, kpos: int, id: u64)
    requires
        spec_redistributed(v, w, x, s, l, p, kpos),
        id == s || id == l,
    ensures
        w.shape_ok(id) && w.size_ok(id),
{
    lemma_redist_pool(v, w, x, s, l, p, kpos);
    let vs = v.nodes[s];
    let vl = v.nodes[l];
    let vp = v.nodes[p];
    let cpool = spec_pool_children(vs, vl);
    let pool = spec_pool_keys(vs, vl, vp.keys[kpos]);
    let m: int = pool.len() as int / 2;
    assert(v.shape_ok(id));
    assert(v.shape_ok(p));
    let lo: int = if id == s { 0 } else { m + 1 };
    let wn = w.nodes[id];
    assert forall|i: int| 0 <= i < wn.children.len() implies (#[trigger] wn.children[i] is Some)
        != wn.is_leaf by {
        assert(wn.children[i] == cpool[lo + i]);
    }
    assert forall|i: int, j: int|
        0 <= i < j < wn.children.len() && wn.children[i] is Some implies #[trigger] wn.children[i]
        != #[trigger] wn.children[j] by {
        assert(wn.children[i] == cpool[lo + i] && wn.children[j] == cpool[lo + j]);
    }
    assert forall|i: int| 0 <= i < wn.children.len() && !wn.is_leaf implies {
        let c = #[trigger] spec_child(wn.children, i);
        &&& w.in_tree(c)
        &&& w.height(c) + 1 == w.height(id)
        &&& w.nodes[c].parent_node_id == Some(id)
    } by {
        let c = spec_child(wn.children, i);
        assert(c == spec_child(cpool, lo + i));
        assert(wn.children.contains(Some(c)));
        lemma_redist_member(v, w, x, s, l, p, kpos, c);
    }
    assert(vp.children.contains(Some(id)));
    assert(w.nodes[p].children == vp.children);
    assert(!v.is_root(id));
}

/// The parent of a redistribution stays well formed.
pub proof fn lemma_redist_parent(v: TreeView, w: TreeView, x: u64, s: u64, l: u64, p: u64, kpos: int)
    requires
        spec_redistributed(v, w, x, s, l, p, kpos),
    ensures
        w.shape_ok(p) && w.size_ok(p),
{
    lemma_redist_pool(v, w, x, s, l, p, kpos);
    let vp = v.nodes[p];
    let wn = w.nodes[p];
    assert(v.shape_ok(p));
    assert(v.size_ok(p));
    assert forall|i: int| 0 <= i < wn.children.len() && !wn.is_leaf implies {
        let c = #[trigger] spec_child(wn.children, i);
        &&& w.in_tree(c)
        &&& w.height(c) + 1 == w.height(p)
        &&& w.nodes[c].parent_node_id == Some(p)
    } by {
        let c = spec_child(wn.children, i);
        assert(spec_child(vp.children, i) == c);
        if c != s && c != l {
            assert(v.nodes[c].parent_node_id == Some(p));
            if w.nodes[l].children.contains(Some(c)) || w.nodes[s].children.contains(Some(c)) {
                lemma_redist_member(v, w, x, s, l, p, kpos, c);
                assert(spec_pool_children(v.nodes[s], v.nodes[l]).contains(Some(c)));
                if v.nodes[s].children.contains(Some(c)) {
                    lemma_children_parent(v, x, s, c);
                } else {
                    lemma_children_parent(v, x, l, c);
                }
            }
        }
    }
    if !w.is_root(p) {
        let pp = vp.parent_node_id->0;
        assert(v.in_tree(pp));
        assert(v.shape_ok(pp));
        assert(v.nodes[pp].children.contains(Some(p)));
        lemma_children_parent(v, x, pp, p);
        assert(v.shape_ok(s));
        assert(vp.children.contains(Some(s)));
        lemma_children_parent(v, x, p, s);
        assert(pp != s && pp != l);
        if w.nodes[l].children.contains(Some(pp)) || w.nodes[s].children.contains(Some(pp)) {
            lemma_redist_member(v, w, x, s, l, p, kpos, pp);
        }
    }
}

/// Nodes other than the three of a redistribution stay well formed.
pub proof fn lemma_redist_other(v: TreeView, w: TreeView, x: u64, s: u64, l: u64, p: u64, kpos: int, id: u64)
    requires
        spec_redistributed(v, w, x, s, l, p, kpos),
        v.in_tree(id),
        id != s && id != l && id != p,
    ensures
        w.shape_ok(id) && w.size_ok(id),
{
    lemma_redist_pool(v, w, x, s, l, p, kpos);
    let vs = v.nodes[s];
    let vl = v.nodes[l];
    let vn = v.nodes[id];
    let wn = w.nodes[id];
    let in_l = w.nodes[l].children.contains(Some(id));
    let in_s = w.nodes[s].children.contains(Some(id));
    assert(v.shape_ok(id));
    assert(v.size_ok(id));
    assert(wn.children == vn.children);
    assert forall|i: int| 0 <= i < wn.children.len() && !wn.is_leaf implies {
        let c = #[trigger] spec_child(wn.children, i);
        &&& w.in_tree(c)
        &&& w.height(c) + 1 == w.height(id)
        &&& w.nodes[c].parent_node_id == Some(id)
    } by {
        let c = spec_child(wn.children, i);
        assert(spec_child(vn.children, i) == c);
        assert(v.nodes[c].parent_node_id == Some(id));
        assert(c != s && c != l);
        if c != p && (w.nodes[l].children.contains(Some(c)) || w.nodes[s].children.contains(Some(c))) {
            lemma_redist_member(v, w, x, s, l, p, kpos, c);
            if vs.children.contains(Some(c)) {
                lemma_children_parent(v, x, s, c);
            } else {
                lemma_children_parent(v, x, l, c);
            }
        }
    }
    if in_l || in_s {
        lemma_redist_member(v, w, x, s, l, p, kpos, id);
        if vs.children.contains(Some(id)) {
            lemma_children_parent(v, x, s, id);
        } else {
            lemma_children_parent(v, x, l, id);
        }
        assert(!v.is_root(id));
    } else if !v.is_root(id) {
        let pp = vn.parent_node_id->0;
        assert(v.in_tree(pp));
        if pp == s || pp == l {
            lemma_children_parent(v, x, pp, id);
            assert(spec_pool_children(vs, vl).contains(Some(id)));
            let cpool = spec_pool_children(vs, vl);
            let pool = spec_pool_keys(vs, vl, v.nodes[p].keys[kpos]);
            let m: int = pool.len() as int / 2;
            let j = choose|j: int| 0 <= j < cpool.len() && cpool[j] == Some(id);
            if j < m + 1 {
                assert(w.nodes[s].children[j] == Some(id));
            } else {
                assert(w.nodes[l].children[j - m - 1] == Some(id));
            }
        }
    }
}

/// Spreading the records of two neighbouring nodes evenly (through their
/// parent's record) gives a well-formed tree.
pub proof fn lemma_redistribute_wf(v: TreeView, w: TreeView, x: u64, s: u64, l: u64, p: u64, kpos: int)
    requires
        spec_redistributed(v, w, x, s, l, p, kpos),
    ensures
        w.wf(),
{
    assert(w.structure_ok()) by {
        assert forall|id: u64| #[trigger] w.in_tree(id) implies w.height(id) <= w.tree_height() by {
            assert(v.in_tree(id));
        }
    }
    assert forall|id: u64| #[trigger] w.in_tree(id) implies w.shape_ok(id) && w.size_ok(id) by {
        assert(v.in_tree(id));
        if id == s || id == l {
            lemma_redist_halves(v, w, x, s, l, p, kpos, id);
        } else if id == p {
            lemma_redist_parent(v, w, x, s, l, p, kpos);
        } else {
            lemma_redist_other(v, w, x, s, l, p, kpos, id);
        }
    }
}

} // verus!

verus! {

/// Position of the first `Some(id)` in `ch` (its length when there is none).
pub open spec fn spec_position(ch: Seq<Option<u64>>, id: u64) -> int
    decreases ch.len(),
{
    if ch.len() == 0 {
        0
    } else if ch.last() == Some(id) && !ch.drop_last().contains(Some(id)) {
        ch.len() - 1
    } else {
        spec_position(ch.drop_last(), id)
    }
}

/// The first position of `Some(id)` is the one before which it does not occur.
pub proof fn lemma_position(ch: Seq<Option<u64>>, id: u64, r: int)
    requires
        0 <= r < ch.len(),
        ch[r] == Some(id),
        forall|j: int| 0 <= j < r ==> ch[j] != Some(id),
    ensures
        spec_position(ch, id) == r,
    decreases ch.len(),
{
    if r < ch.len() - 1 {
        assert(ch.drop_last()[r] == Some(id));
        lemma_position(ch.drop_last(), id, r);
        assert(ch.drop_last().contains(Some(id)));
    } else {
        assert forall|j: int| 0 <= j < ch.drop_last().len() implies ch.drop_last()[j] != Some(id) by {
            assert(ch.drop_last()[j] == ch[j]);
        }
    }
}

/// Whether node `x` cannot lend (after an insertion: it is full) or cannot
/// take (after a deletion: it has no record to spare) a record.
pub open spec fn spec_blocked(v: TreeView, x: u64, insertion: bool) -> bool {
    if insertion {
        v.nodes[x].keys.len() >= 2 * v.order
    } else {
        v.nodes[x].keys.len() <= v.order
    }
}

/// The neighbour that node `id` evens out with: the left one when it can,
/// else the right one; as (parent, parent's record between them, neighbour).
pub open spec fn spec_partner(v: TreeView, id: u64, insertion: bool) -> Result<(u64, int, u64), ()> {
    match v.nodes[id].parent_node_id {
        None => Err(()),
        Some(p) => {
            let ch = v.nodes[p].children;
            let pos = spec_position(ch, id);
            if pos > 0 {
                let left = ch[pos - 1]->0;
                if spec_blocked(v, left, insertion) {
                    if pos < ch.len() - 1 {
                        let right = ch[pos + 1]->0;
                        if spec_blocked(v, right, insertion) {
                            Err(())
                        } else {
                            Ok((p, pos, right))
                        }
                    } else {
                        Err(())
                    }
                } else {
                    Ok((p, pos - 1, left))
                }
            } else {
                let right = ch[1]->0;
                if spec_blocked(v, right, insertion) {
                    Err(())
                } else {
                    Ok((p, 0, right))
                }
            }
        },
    }
}

/// A neighbour chosen for evening out is a distinct node of the tree at the
/// same height, with the same parent, next to node `id`.
pub proof fn lemma_partner(v: TreeView, id: u64, insertion: bool)
    requires
        v.wf_except(id),
        v.in_tree(id),
        spec_partner(v, id, insertion) is Ok,
    ensures
        ({
            let (p, k, s) = spec_partner(v, id, insertion)->Ok_0;
            &&& v.in_tree(p)
            &&& v.in_tree(s)
            &&& s != id
            &&& v.nodes[id].parent_node_id == Some(p)
            &&& v.nodes[s].parent_node_id == Some(p)
            &&& v.height(s) == v.height(id)
            &&& 0 <= k < v.nodes[p].keys.len()
            &&& (v.nodes[p].children[k] == Some(id) && v.nodes[p].children[k + 1] == Some(s))
                || (v.nodes[p].children[k] == Some(s) && v.nodes[p].children[k + 1] == Some(id))
            &&& !spec_blocked(v, s, insertion)
        }),
{
    assert(v.shape_ok(id));
    let p = v.nodes[id].parent_node_id->0;
    let ch = v.nodes[p].children;
    assert(v.shape_ok(p));
    let r = choose|r: int| 0 <= r < ch.len() && ch[r] == Some(id) && forall|j: int| 0 <= j < r ==> ch[j] != Some(id);
    assert(exists|r: int| 0 <= r < ch.len() && ch[r] == Some(id) && forall|j: int| 0 <= j < r ==> ch[j] != Some(id)) by {
        let j0 = choose|j: int| 0 <= j < ch.len() && ch[j] == Some(id);
        assert(ch[j0] == Some(id));
        assert forall|j: int| 0 <= j < j0 implies ch[j] != Some(id) by {
            assert(v.nodes[p].children[j0] == Some(id));
        }
    }
    lemma_position(ch, id, r);
    assert(!v.nodes[p].is_leaf);
    let (pp, k, s) = spec_partner(v, id, insertion)->Ok_0;
    assert(pp == p);
    lemma_children_parent(v, id, p, id);
    assert(v.size_ok(p));
    assert(ch.len() >= 2);
    let j = if s == ch[r - 1]->0 && r > 0 && k == r - 1 { r - 1 } else { r + 1 };
    assert(spec_child(ch, j) == s);
    assert(v.in_tree(s));
    assert(v.nodes[s].parent_node_id == Some(p));
    assert(v.height(s) == v.height(id)) by {
        assert(spec_child(ch, r) == id);
    }
    assert(s != id) by {
        assert(ch[j] == Some(s));
    }
}

} // verus!

verus! {

/// Where a record goes among the keys of a node.
pub open spec fn spec_insert_pos(keys: Seq<Record>, key: u64) -> int {
    match spec_bsearch(keys, key, 0, keys.len() as int) {
        Ok(i) => i as int,
        Err(i) => i as int,
    }
}

/// A node with a record inserted in key order, and `right` as the child after
/// it (a node without children also gets `left` before it).
pub open spec fn spec_basic_insert(n: NodeView, r: Record, left: Option<u64>, right: Option<u64>) -> NodeView {
    let p = spec_insert_pos(n.keys, r.key);
    let c1 = if n.children.len() == 0 {
        n.children.insert(p, left)
    } else {
        n.children
    };
    NodeView { keys: n.keys.insert(p, r), children: c1.insert(p + 1, right), ..n }
}

/// The insert position lies within the keys.
pub proof fn lemma_insert_pos(keys: Seq<Record>, key: u64)
    requires
        keys.len() <= usize::MAX,
    ensures
        0 <= spec_insert_pos(keys, key) <= keys.len(),
{
    lemma_bsearch_range(keys, key, 0, keys.len() as int);
}

/// An empty inner node with id `p` and no parent: a new root.
pub open spec fn spec_empty_root(p: u64) -> NodeView {
    NodeView {
        id: p,
        parent_node_id: None,
        is_leaf: false,
        is_deleted: false,
        keys: Seq::empty(),
        children: Seq::empty(),
    }
}

/// The left half of an overfull node `s` that splits under parent `p`.
pub open spec fn spec_split_left(s: NodeView, order: nat, p: u64) -> NodeView {
    NodeView {
        keys: s.keys.subrange(0, order as int),
        children: s.children.subrange(0, order as int + 1),
        parent_node_id: Some(p),
        ..s
    }
}

/// The new right half, node `n`, of an overfull node `s` that splits under
/// parent `p`.
pub open spec fn spec_split_right(s: NodeView, order: nat, n: u64, p: u64) -> NodeView {
    NodeView {
        id: n,
        parent_node_id: Some(p),
        is_leaf: s.is_leaf,
        is_deleted: false,
        keys: s.keys.subrange(order as int + 1, s.keys.len() as int),
        children: s.children.subrange(order as int + 1, s.children.len() as int),
    }
}

/// `w` is the tree `v` after node `x` (with `2 * order + 1` records) split
/// into `x` and the new node `n`, its middle record going up into the parent
/// `p` (a new root when `new_root`).
pub open spec fn spec_split_done(v: TreeView, w: TreeView, x: u64, n: u64, p: u64, new_root: bool) -> bool {
    let s = v.nodes[x];
    let o = v.order;
    let h = v.height(x);
    let pv = if new_root { spec_empty_root(p) } else { v.nodes[p] };
    &&& v.wf_except(x)
    &&& v.in_tree(x)
    &&& s.keys.len() == 2 * o + 1
    &&& !v.in_tree(n)
    &&& n != x
    &&& forall|id: u64| #[trigger] v.in_tree(id) ==> !v.nodes[id].children.contains(Some(n))
    &&& if new_root {
        &&& v.is_root(x)
        &&& p != n
        &&& p != x
        &&& !v.in_tree(p)
        &&& forall|id: u64| #[trigger] v.in_tree(id) ==> !v.nodes[id].children.contains(Some(p))
    } else {
        &&& !v.is_root(x)
        &&& s.parent_node_id == Some(p)
    }
    &&& w.order == o
    &&& w.root == (if new_root { Some(p) } else { v.root })
    &&& w.heights == (if new_root { v.heights.insert(n, h).insert(p, h + 1) } else { v.heights.insert(n, h) })
    &&& w.nodes.dom() == w.heights.dom()
    &&& w.nodes[x] == spec_split_left(s, o, p)
    &&& w.nodes[n] == spec_split_right(s, o, n, p)
    &&& w.nodes[p] == spec_basic_insert(pv, s.keys[o as int], Some(x), Some(n))
    &&& forall|id: u64| #[trigger]
        v.in_tree(id) && id != x && id != p ==> w.nodes[id] == (if spec_split_right(s, o, n, p).children.contains(Some(id)) {
            spec_with_parent(v.nodes[id], n)
        } else {
            v.nodes[id]
        })
}

/// Facts about the two halves of a split.
pub proof fn lemma_split_halves(v: TreeView, w: TreeView, x: u64, n: u64, p: u64, new_root: bool)
    requires
        spec_split_done(v, w, x, n, p, new_root),
    ensures
        ({
            let s = v.nodes[x];
            let o = v.order;
            &&& v.shape_ok(x)
            &&& s.children.len() == 2 * o + 2
            &&& forall|c: u64| #[trigger] s.children.contains(Some(c)) <==> (
                spec_split_left(s, o, p).children.contains(Some(c))
                || spec_split_right(s, o, n, p).children.contains(Some(c)))
            &&& forall|c: u64| !(#[trigger] spec_split_left(s, o, p).children.contains(Some(c))
                && spec_split_right(s, o, n, p).children.contains(Some(c)))
            &&& !s.is_leaf ==> v.height(x) >= 1
        }),
{
    let s = v.nodes[x];
    let o = v.order;
    assert(v.shape_ok(x));
    let a = spec_split_left(s, o, p).children;
    let b = spec_split_right(s, o, n, p).children;
    assert forall|c: u64| #[trigger] s.children.contains(Some(c)) <==> (a.contains(Some(c)) || b.contains(Some(c))) by {
        if s.children.contains(Some(c)) {
            let i = choose|i: int| 0 <= i < s.children.len() && s.children[i] == Some(c);
            if i < o + 1 {
                assert(a[i] == Some(c));
            } else {
                assert(b[i - o - 1] == Some(c));
            }
        }
        if a.contains(Some(c)) {
            let i = choose|i: int| 0 <= i < a.len() && a[i] == Some(c);
            assert(s.children[i] == Some(c));
        }
        if b.contains(Some(c)) {
            let i = choose|i: int| 0 <= i < b.len() && b[i] == Some(c);
            assert(s.children[o + 1 + i] == Some(c));
        }
    }
    assert forall|c: u64| !(#[trigger] a.contains(Some(c)) && b.contains(Some(c))) by {
        if a.contains(Some(c)) && b.contains(Some(c)) {
            let i = choose|i: int| 0 <= i < a.len() && a[i] == Some(c);
            let j = choose|j: int| 0 <= j < b.len() && b[j] == Some(c);
            assert(s.children[i] == Some(c) && s.children[o + 1 + j] == Some(c));
        }
    }
    if !s.is_leaf {
        assert(spec_child(s.children, 0) == s.children[0]->0);
    }
}

} // verus!

verus! {

/// The parent after a split holds its old children and the new node.
pub proof fn lemma_split_parent_children(v: TreeView, w: TreeView, x: u64, n: u64, p: u64, new_root: bool)
    requires
        spec_split_done(v, w, x, n, p, new_root),
    ensures
        forall|c: u64| #[trigger] w.nodes[p].children.contains(Some(c)) <==> (c == n || (if new_root {
            c == x
        } else {
            v.nodes[p].children.contains(Some(c))
        })),
        w.nodes[p].children.len() == w.nodes[p].keys.len() + 1,
        new_root ==> w.nodes[p].keys.len() == 1,
        !new_root ==> w.nodes[p].keys.len() == v.nodes[p].keys.len() + 1,
        !new_root ==> v.in_tree(p) && v.shape_ok(p) && p != x && p != n,
        !new_root ==> v.height(p) == v.height(x) + 1,
{
    let s = v.nodes[x];
    let o = v.order;
    assert(v.shape_ok(x));
    let pv = if new_root { spec_empty_root(p) } else { v.nodes[p] };
    if !new_root {
        assert(v.in_tree(p));
        assert(v.shape_ok(p));
        lemma_children_parent(v, x, p, x);

    }
    let pos = spec_insert_pos(pv.keys, s.keys[o as int].key);
    if new_root {
        assert(pos == 0);
    } else {
        assert(v.size_ok(p) || p == x);
        assert(pv.keys.len() <= 2 * o + 1);
        lemma_insert_pos(pv.keys, s.keys[o as int].key);
    }
    let wc = w.nodes[p].children;
    let c1 = if pv.children.len() == 0 { pv.children.insert(pos, Some(x)) } else { pv.children };
    assert(wc == c1.insert(pos + 1, Some(n)));
    assert forall|c: u64| #[trigger] wc.contains(Some(c)) <==> (c == n || (if new_root {
        c == x
    } else {
        v.nodes[p].children.contains(Some(c))
    })) by {
        if new_root {
            assert(c1 =~= seq![Some(x)]);
            assert(wc =~= seq![Some(x), Some(n)]);
            if wc.contains(Some(c)) {
                let i = choose|i: int| 0 <= i < wc.len() && wc[i] == Some(c);
            }
            if c == x {
                assert(wc[0] == Some(x));
            }
            if c == n {
                assert(wc[1] == Some(n));
            }
        } else {
            assert(c1 == pv.children);
            if wc.contains(Some(c)) {
                let i = choose|i: int| 0 <= i < wc.len() && wc[i] == Some(c);
                if i < pos + 1 {
                    assert(pv.children[i] == Some(c));
                } else if i > pos + 1 {
                    assert(pv.children[i - 1] == Some(c));
                }
            }
            if c == n {
                assert(wc[pos + 1] == Some(n));
            }
            if pv.children.contains(Some(c)) {
                let i = choose|i: int| 0 <= i < pv.children.len() && pv.children[i] == Some(c);
                if i < pos + 1 {
                    assert(wc[i] == Some(c));
                } else {
                    assert(wc[i + 1] == Some(c));
                }
            }
        }
    }
}

/// The new node and the left half of a split are well formed.
pub proof fn lemma_split_halves_wf(v: TreeView, w: TreeView, x: u64, n: u64, p: u64, new_root: bool, id: u64)
    requires
        spec_split_done(v, w, x, n, p, new_root),
        id == x || id == n,
    ensures
        w.shape_ok(id) && w.size_ok(id),
{
    lemma_split_halves(v, w, x, n, p, new_root);
    lemma_split_parent_children(v, w, x, n, p, new_root);
    let s = v.nodes[x];
    let o = v.order;
    let lo: int = if id == x { 0 } else { o as int + 1 };
    let wn = w.nodes[id];
    assert(wn.children =~= s.children.subrange(lo, lo + o + 1));
    assert forall|i: int| 0 <= i < wn.children.len() implies (#[trigger] wn.children[i] is Some)
        != wn.is_leaf by {
        assert(wn.children[i] == s.children[lo + i]);
    }
    assert forall|i: int, j: int|
        0 <= i < j < wn.children.len() && wn.children[i] is Some implies #[trigger] wn.children[i]
        != #[trigger] wn.children[j] by {
        assert(wn.children[i] == s.children[lo + i] && wn.children[j] == s.children[lo + j]);
    }
    assert forall|i: int| 0 <= i < wn.children.len() && !wn.is_leaf implies {
        let c = #[trigger] spec_child(wn.children, i);
        &&& w.in_tree(c)
        &&& w.height(c) + 1 == w.height(id)
        &&& w.nodes[c].parent_node_id == Some(id)
    } by {
        let c = spec_child(wn.children, i);
        assert(c == spec_child(s.children, lo + i));
        assert(wn.children.contains(Some(c)));
        assert(v.in_tree(c));
        assert(c != n);
        assert(c != x && c != p) by {
            assert(v.height(c) + 1 == v.height(x));
            if !new_root {
                assert(v.height(p) == v.height(x) + 1);
            }
        }
    }
    assert(w.nodes[p].children.contains(Some(id)));
    assert(w.in_tree(p));
}

/// The parent of a split is well formed but perhaps for its record count.
pub proof fn lemma_split_parent_wf(v: TreeView, w: TreeView, x: u64, n: u64, p: u64, new_root: bool)
    requires
        spec_split_done(v, w, x, n, p, new_root),
    ensures
        w.shape_ok(p),
{
    lemma_split_halves(v, w, x, n, p, new_root);
    lemma_split_parent_children(v, w, x, n, p, new_root);
    let s = v.nodes[x];
    let o = v.order;
    let wn = w.nodes[p];
    let pv = if new_root { spec_empty_root(p) } else { v.nodes[p] };
    let pos = spec_insert_pos(pv.keys, s.keys[o as int].key);
    let c1 = if pv.children.len() == 0 { pv.children.insert(pos, Some(x)) } else { pv.children };
    if !new_root {
        assert(v.in_tree(p));
        assert(v.shape_ok(p));
        lemma_insert_pos(pv.keys, s.keys[o as int].key);
    } else {
        assert(pos == 0);
    }
    assert(wn.children == c1.insert(pos + 1, Some(n)));
    assert forall|i: int| 0 <= i < wn.children.len() implies (#[trigger] wn.children[i] is Some)
        != wn.is_leaf by {
        if new_root {
            assert(wn.children =~= seq![Some(x), Some(n)]);
        } else if i < pos + 1 {
            assert(wn.children[i] == pv.children[i]);
        } else if i > pos + 1 {
            assert(wn.children[i] == pv.children[i - 1]);
        }
    }
    assert forall|i: int, j: int|
        0 <= i < j < wn.children.len() && wn.children[i] is Some implies #[trigger] wn.children[i]
        != #[trigger] wn.children[j] by {
        if new_root {
            assert(wn.children =~= seq![Some(x), Some(n)]);
        } else {
            let pc = pv.children;
            if i == pos + 1 {
                assert(wn.children[j] == pc[j - 1]);
                assert(!pc.contains(Some(n))) by {
                    assert(v.in_tree(p));
                }
            } else if j == pos + 1 {
                let ii = if i < pos + 1 { i } else { i - 1 };
                assert(wn.children[i] == pc[ii]);
                assert(!pc.contains(Some(n))) by {
                    assert(v.in_tree(p));
                }
            } else {
                let ii = if i < pos + 1 { i } else { i - 1 };
                let jj = if j < pos + 1 { j } else { j - 1 };
                assert(wn.children[i] == pc[ii] && wn.children[j] == pc[jj]);
            }
        }
    }
    assert forall|i: int| 0 <= i < wn.children.len() && !wn.is_leaf implies {
        let c = #[trigger] spec_child(wn.children, i);
        &&& w.in_tree(c)
        &&& w.height(c) + 1 == w.height(p)
        &&& w.nodes[c].parent_node_id == Some(p)
    } by {
        let c = spec_child(wn.children, i);
        assert(wn.children.contains(Some(c)));
        if c != n && c != x {
            assert(!new_root);
            assert(v.nodes[p].children.contains(Some(c)));
            lemma_children_parent(v, x, p, c);
            assert(!spec_split_right(s, o, n, p).children.contains(Some(c))) by {
                if spec_split_right(s, o, n, p).children.contains(Some(c)) {
                    assert(s.children.contains(Some(c)));
                    lemma_children_parent(v, x, x, c);
                }
            }
        }
    }
    if !new_root {
        if !w.is_root(p) {
            let pp = v.nodes[p].parent_node_id->0;
            assert(v.in_tree(pp));
            assert(v.nodes[pp].children.contains(Some(p)));
            lemma_children_parent(v, x, pp, p);
            assert(pp != x && pp != p);
            if spec_split_right(s, o, n, p).children.contains(Some(pp)) {
                assert(s.children.contains(Some(pp)));
                lemma_children_parent(v, x, x, pp);
            }
        }
    }
}

/// The nodes that a split leaves in place (or only re-parents) stay well formed.
pub proof fn lemma_split_other_wf(v: TreeView, w: TreeView, x: u64, n: u64, p: u64, new_root: bool, id: u64)
    requires
        spec_split_done(v, w, x, n, p, new_root),
        v.in_tree(id),
        id != x && id != p,
    ensures
        w.shape_ok(id) && w.size_ok(id),
{
    lemma_split_halves(v, w, x, n, p, new_root);
    lemma_split_parent_children(v, w, x, n, p, new_root);
    let s = v.nodes[x];
    let o = v.order;
    let right = spec_split_right(s, o, n, p);
    let left = spec_split_left(s, o, p);
    let vn = v.nodes[id];
    let wn = w.nodes[id];
    assert(v.shape_ok(id));
    assert(v.size_ok(id));
    assert(id != n);
    assert(wn.children == vn.children);
    assert forall|i: int| 0 <= i < wn.children.len() && !wn.is_leaf implies {
        let c = #[trigger] spec_child(wn.children, i);
        &&& w.in_tree(c)
        &&& w.height(c) + 1 == w.height(id)
        &&& w.nodes[c].parent_node_id == Some(id)
    } by {
        let c = spec_child(wn.children, i);
        assert(spec_child(vn.children, i) == c);
        assert(v.nodes[c].parent_node_id == Some(id));
        assert(c != x) by {
            if c == x {
                assert(s.parent_node_id == Some(id));
                if new_root {
                    assert(v.is_root(x));
                }
            }
        }
        assert(c != n) by {
            assert(vn.children.contains(Some(c)));
        }
        if right.children.contains(Some(c)) {
            assert(s.children.contains(Some(c)));
            lemma_children_parent(v, x, x, c);
        }
        if c == p {
            assert(!new_root) by {
                if new_root {
                    assert(vn.children.contains(Some(p)));
                }
            }
        }
    }
    if right.children.contains(Some(id)) {
        assert(s.children.contains(Some(id)));
        lemma_children_parent(v, x, x, id);
        assert(!v.is_root(id));
    } else if !v.is_root(id) {
        let pp = vn.parent_node_id->0;
        assert(v.in_tree(pp));
        if pp == x {
            lemma_children_parent(v, x, x, id);
            assert(s.children.contains(Some(id)));
            assert(left.children.contains(Some(id)));
        }
        if pp != x && pp != p {
            assert(pp != n);
            if right.children.contains(Some(pp)) {
                assert(s.children.contains(Some(pp)));
                lemma_children_parent(v, x, x, pp);
                lemma_children_parent(v, x, pp, id);
            }
        }
    } else {
        assert(new_root ==> v.is_root(x));
    }
}

/// A split leaves a tree well formed but perhaps for the parent's record
/// count.
pub proof fn lemma_split_wf(v: TreeView, w: TreeView, x: u64, n: u64, p: u64, new_root: bool)
    requires
        spec_split_done(v, w, x, n, p, new_root),
    ensures
        w.wf_except(p),
{
    lemma_split_halves(v, w, x, n, p, new_root);
    assert(w.structure_ok()) by {
        assert forall|id: u64| #[trigger] w.in_tree(id) implies w.height(id) <= w.tree_height() by {
            if id != n && id != p {
                assert(v.in_tree(id));
            }
            if !new_root {
                assert(v.in_tree(x));
            }
        }
    }
    assert forall|id: u64| #[trigger] w.in_tree(id) implies w.shape_ok(id) && (id != p ==> w.size_ok(id)) by {
        if id == x || id == n {
            lemma_split_halves_wf(v, w, x, n, p, new_root, id);
        } else if id == p {
            lemma_split_parent_wf(v, w, x, n, p, new_root);
        } else {
            assert(v.in_tree(id));
            lemma_split_other_wf(v, w, x, n, p, new_root, id);
        }
    }
}

} // verus!

verus! {

/// The tree `v` with node `id` replaced by `n`.
pub open spec fn spec_view_with(v: TreeView, id: u64, n: NodeView) -> TreeView {
    TreeView { nodes: v.nodes.insert(id, n), ..v }
}

impl BTree {
    /// Makes a new, empty root (a leaf when `is_leaf`) with the next id.
    pub fn create_new_root(&mut self, is_leaf: bool) -> (root: Node)
        requires
            old(self).store_ok(),
            spec_stored_ok(*old(self)),
            old(self).nodes_file.next_id + 1 < usize::MAX,
        ensures
            root@ == (NodeView {
                id: old(self).nodes_file.next_id,
                parent_node_id: None,
                is_leaf,
                is_deleted: false,
                keys: Seq::empty(),
                children: Seq::empty(),
            }),
            final(self).root_id == Some(old(self).nodes_file.next_id),
            final(self).nodes_file.next_id == old(self).nodes_file.next_id + 1,
            final(self).nodes_file.readable(root.id),
            spec_entry_kept(root@, final(self).node(root.id)),
            final(self).store_ok(),
            spec_stored_ok(*final(self)),
            final(self).heights == old(self).heights,
            final(self).order == old(self).order,
            final(self).nodes_file.order == old(self).nodes_file.order,
            final(self).data_file == old(self).data_file,
            final(self).view().nodes == old(self).view().nodes,
            !old(self).in_tree(root.id),
            spec_store_frame(*old(self), *final(self)),
    {
        let root = Node::new(is_leaf, self.get_next_id(), self.order);
        self.nodes_file.create_node(&root);
        self.root_id = Some(root.id);
        proof {
            assert forall|id: u64| #[trigger] self.in_tree(id) implies self.nodes_file.readable(id)
                && id < self.nodes_file.next_id && self.node(id) == old(self).node(id)
                && spec_well_shaped(self.node(id)) && self.node(id).id == id
                && self.node(id).keys.len() <= spec_max_keys(self.order as nat) by {
                assert(old(self).in_tree(id));
                assert(old(self).nodes_file.readable(id));
                lemma_kept_shaped(old(self).node(id), self.node(id));
            }
            assert(self.view().nodes =~= old(self).view().nodes);
        }
        root
    }
}

} // verus!

verus! {

/// An empty inner root with a single child `c` collapses: `c` becomes the
/// root and the tree stays well formed.
pub proof fn lemma_collapse_wf(v: TreeView, w: TreeView, r: u64, c: u64)
    requires
        v.wf_except(r),
        v.is_root(r),
        v.nodes[r].keys.len() == 0,
        !v.nodes[r].is_leaf,
        v.nodes[r].children[0] == Some(c),
        w.order == v.order,
        w.root == Some(c),
        w.heights == v.heights.remove(r),
        w.nodes.dom() == w.heights.dom(),
        w.nodes[c] == (NodeView { parent_node_id: None, ..v.nodes[c] }),
        forall|id: u64| #[trigger] v.in_tree(id) && id != r && id != c ==> w.nodes[id] == v.nodes[id],
    ensures
        w.wf(),
{
    assert(v.shape_ok(r));
    assert(spec_child(v.nodes[r].children, 0) == c);
    assert(v.in_tree(c));
    assert(v.nodes[r].children.len() == 1);
    // Every node but the root hangs below `c`.
    assert forall|id: u64| #[trigger] v.in_tree(id) && id != r implies v.height(id) <= v.height(c)
        && id != r by {
        assert(v.shape_ok(id));
        let pp = v.nodes[id].parent_node_id->0;
        assert(v.in_tree(pp));
        lemma_children_parent(v, r, pp, id);
    }
    assert(c != r) by {
        assert(v.height(c) + 1 == v.height(r));
    }
    assert(w.structure_ok()) by {
        assert forall|id: u64| #[trigger] w.in_tree(id) implies w.height(id) <= w.tree_height() by {
            assert(v.in_tree(id));
        }
    }
    assert forall|id: u64| #[trigger] w.in_tree(id) implies w.shape_ok(id) && w.size_ok(id) by {
        assert(v.in_tree(id));
        assert(id != r);
        assert(v.shape_ok(id));
        let vn = v.nodes[id];
        assert(w.nodes[id].children == vn.children);
        assert forall|i: int| 0 <= i < vn.children.len() && !vn.is_leaf implies {
            let ch = #[trigger] spec_child(vn.children, i);
            &&& w.in_tree(ch)
            &&& w.height(ch) + 1 == w.height(id)
            &&& w.nodes[ch].parent_node_id == Some(id)
        } by {
            let ch = spec_child(vn.children, i);
            assert(v.in_tree(ch));
            assert(ch != r) by {
                if ch == r {
                    assert(v.nodes[r].parent_node_id == Some(id));
                }
            }
            assert(ch != c) by {
                if ch == c {
                    assert(v.nodes[c].parent_node_id == Some(r));
                }
            }
        }
        if id == c {
            assert(v.size_ok(c) || c == r);
            assert(v.nodes[c].keys.len() >= v.order);
        } else {
            assert(v.size_ok(id));
            let pp = vn.parent_node_id->0;
            assert(v.in_tree(pp));
            assert(pp != r) by {
                if pp == r {
                    lemma_children_parent(v, r, r, id);
                    let j = choose|j: int| 0 <= j < v.nodes[r].children.len() && v.nodes[r].children[j] == Some(id);
                    assert(j == 0);
                }
            }
        }
    }
}

} // verus!

verus! {

/// The node made by merging `a`, the parent's record `k` and its right
/// neighbour `b`.
pub open spec fn spec_merged_node(a: NodeView, b: NodeView, pk: Record) -> NodeView {
    NodeView { keys: a.keys + seq![pk] + b.keys, children: a.children + b.children, ..a }
}

/// The parent after the merge of its children `k` and `k + 1`.
pub open spec fn spec_merged_parent(p: NodeView, k: int) -> NodeView {
    NodeView { keys: p.keys.remove(k), children: p.children.remove(k + 1), ..p }
}

/// `w` is the tree `v` after node `b` (child `k + 1` of `p`) was merged into
/// its left neighbour `a` (child `k`) together with the parent's record `k`.
pub open spec fn spec_merge_done(v: TreeView, w: TreeView, x: u64, a: u64, b: u64, p: u64, k: int) -> bool {
    let va = v.nodes[a];
    let vb = v.nodes[b];
    let vp = v.nodes[p];
    &&& v.wf_except(x)
    &&& x == a || x == b
    &&& v.in_tree(a)
    &&& v.in_tree(b)
    &&& v.in_tree(p)
    &&& a != b
    &&& va.parent_node_id == Some(p)
    &&& vb.parent_node_id == Some(p)
    &&& 0 <= k < vp.keys.len()
    &&& vp.children[k] == Some(a)
    &&& vp.children[k + 1] == Some(b)
    &&& v.order <= va.keys.len() + 1 + vb.keys.len() <= 2 * v.order
    &&& w.order == v.order
    &&& w.root == v.root
    &&& w.heights == v.heights.remove(b)
    &&& w.nodes.dom() == w.heights.dom()
    &&& w.nodes[a] == spec_merged_node(va, vb, vp.keys[k])
    &&& w.nodes[p] == spec_merged_parent(vp, k)
    &&& forall|id: u64| #[trigger]
        v.in_tree(id) && id != a && id != b && id != p ==> w.nodes[id] == (if vb.children.contains(Some(id)) {
            spec_with_parent(v.nodes[id], a)
        } else {
            v.nodes[id]
        })
}

/// Facts about the nodes of a merge.
pub proof fn lemma_merge_facts(v: TreeView, w: TreeView, x: u64, a: u64, b: u64, p: u64, k: int)
    requires
        spec_merge_done(v, w, x, a, b, p, k),
    ensures
        v.shape_ok(a) && v.shape_ok(b) && v.shape_ok(p),
        v.height(a) == v.height(b),
        v.height(a) + 1 == v.height(p),
        p != a && p != b,
        v.nodes[a].is_leaf == v.nodes[b].is_leaf,
        !v.is_root(a) && !v.is_root(b),
        forall|c: u64| #[trigger] v.nodes[b].children.contains(Some(c)) ==> v.in_tree(c) && v.nodes[c].parent_node_id == Some(b)
            && v.height(c) + 1 == v.height(b),
        forall|c: u64| #[trigger] v.nodes[a].children.contains(Some(c)) ==> v.in_tree(c) && v.nodes[c].parent_node_id == Some(a)
            && v.height(c) + 1 == v.height(a),
{
    assert(v.shape_ok(a) && v.shape_ok(b) && v.shape_ok(p));
    assert(spec_child(v.nodes[p].children, k) == a);
    assert(spec_child(v.nodes[p].children, k + 1) == b);
    assert forall|c: u64| #[trigger] v.nodes[b].children.contains(Some(c)) implies v.in_tree(c) && v.nodes[c].parent_node_id == Some(b)
        && v.height(c) + 1 == v.height(b) by {
        if v.nodes[b].is_leaf {
            let j = choose|j: int| 0 <= j < v.nodes[b].children.len() && v.nodes[b].children[j] == Some(c);
            assert(v.nodes[b].children[j] is Some);
        }
        lemma_children_parent(v, x, b, c);
    }
    assert forall|c: u64| #[trigger] v.nodes[a].children.contains(Some(c)) implies v.in_tree(c) && v.nodes[c].parent_node_id == Some(a)
        && v.height(c) + 1 == v.height(a) by {
        if v.nodes[a].is_leaf {
            let j = choose|j: int| 0 <= j < v.nodes[a].children.len() && v.nodes[a].children[j] == Some(c);
            assert(v.nodes[a].children[j] is Some);
        }
        lemma_children_parent(v, x, a, c);
    }
}

/// The merged node is well formed.
pub proof fn lemma_merge_node_wf(v: TreeView, w: TreeView, x: u64, a: u64, b: u64, p: u64, k: int)
    requires
        spec_merge_done(v, w, x, a, b, p, k),
    ensures
        w.shape_ok(a) && w.size_ok(a),
{
    lemma_merge_facts(v, w, x, a, b, p, k);
    let va = v.nodes[a];
    let vb = v.nodes[b];
    let wn = w.nodes[a];
    let ch = wn.children;
    assert(ch == va.children + vb.children);
    assert forall|i: int| 0 <= i < ch.len() implies (#[trigger] ch[i] is Some) != wn.is_leaf by {
        if i < va.children.len() {
            assert(ch[i] == va.children[i]);
        } else {
            assert(ch[i] == vb.children[i - va.children.len()]);
        }
    }
    assert forall|i: int, j: int| 0 <= i < j < ch.len() && ch[i] is Some implies #[trigger] ch[i] != #[trigger] ch[j] by {
        if i < va.children.len() && j >= va.children.len() {
            let c = ch[i]->0;
            assert(va.children.contains(Some(c))) by {
                assert(va.children[i] == Some(c));
            }
            if ch[j] == Some(c) {
                assert(vb.children.contains(Some(c))) by {
                    assert(vb.children[j - va.children.len()] == Some(c));
                }
            }
        } else if i < va.children.len() {
            assert(ch[i] == va.children[i] && ch[j] == va.children[j]);
        } else {
            assert(ch[i] == vb.children[i - va.children.len()] && ch[j] == vb.children[j - va.children.len()]);
        }
    }
    assert forall|i: int| 0 <= i < ch.len() && !wn.is_leaf implies {
        let c = #[trigger] spec_child(ch, i);
        &&& w.in_tree(c)
        &&& w.height(c) + 1 == w.height(a)
        &&& w.nodes[c].parent_node_id == Some(a)
    } by {
        let c = spec_child(ch, i);
        if i < va.children.len() {
            assert(va.children[i] == Some(c));
            assert(va.children.contains(Some(c)));
            if vb.children.contains(Some(c)) {
                assert(v.nodes[c].parent_node_id == Some(b));
            }
        } else {
            assert(vb.children[i - va.children.len()] == Some(c));
            assert(vb.children.contains(Some(c)));
        }
        assert(c != a && c != b && c != p);
    }
    assert(w.nodes[p].children.contains(Some(a))) by {
        if k == 0 {
            assert(w.nodes[p].children[0] == Some(a));
        } else {
            assert(w.nodes[p].children[k] == Some(a));
        }
    }
}

/// The parent of a merge is well formed but perhaps for its record count.
pub proof fn lemma_merge_parent_wf(v: TreeView, w: TreeView, x: u64, a: u64, b: u64, p: u64, k: int)
    requires
        spec_merge_done(v, w, x, a, b, p, k),
    ensures
        w.shape_ok(p),
{
    lemma_merge_facts(v, w, x, a, b, p, k);
    let vp = v.nodes[p];
    let wn = w.nodes[p];
    let ch = wn.children;
    assert(ch == vp.children.remove(k + 1));
    assert forall|i: int| 0 <= i < ch.len() implies (#[trigger] ch[i] is Some) != wn.is_leaf by {
        if i < k + 1 {
            assert(ch[i] == vp.children[i]);
        } else {
            assert(ch[i] == vp.children[i + 1]);
        }
    }
    assert forall|i: int, j: int| 0 <= i < j < ch.len() && ch[i] is Some implies #[trigger] ch[i] != #[trigger] ch[j] by {
        let ii = if i < k + 1 { i } else { i + 1 };
        let jj = if j < k + 1 { j } else { j + 1 };
        assert(ch[i] == vp.children[ii] && ch[j] == vp.children[jj]);
    }
    assert forall|i: int| 0 <= i < ch.len() && !wn.is_leaf implies {
        let c = #[trigger] spec_child(ch, i);
        &&& w.in_tree(c)
        &&& w.height(c) + 1 == w.height(p)
        &&& w.nodes[c].parent_node_id == Some(p)
    } by {
        let ii = if i < k + 1 { i } else { i + 1 };
        let c = spec_child(ch, i);
        assert(spec_child(vp.children, ii) == c);
        assert(c != b) by {
            if c == b {
                assert(vp.children[k + 1] == Some(b));
                assert(ii != k + 1);
            }
        }
        if c != a {
            assert(v.nodes[c].parent_node_id == Some(p));
            if v.nodes[b].children.contains(Some(c)) {
                assert(v.nodes[c].parent_node_id == Some(b));
            }
        }
    }
    if !w.is_root(p) {
        let pp = vp.parent_node_id->0;
        assert(v.in_tree(pp));
        assert(v.nodes[pp].children.contains(Some(p)));
        lemma_children_parent(v, x, pp, p);
        assert(pp != a && pp != b && pp != p);
        if v.nodes[b].children.contains(Some(pp)) {
            assert(v.height(pp) + 1 == v.height(b));
        }
    }
}

/// The other nodes of a merge stay well formed.
pub proof fn lemma_merge_other_wf(v: TreeView, w: TreeView, x: u64, a: u64, b: u64, p: u64, k: int, id: u64)
    requires
        spec_merge_done(v, w, x, a, b, p, k),
        v.in_tree(id),
        id != a && id != b && id != p,
    ensures
        w.shape_ok(id) && w.size_ok(id),
{
    lemma_merge_facts(v, w, x, a, b, p, k);
    let vn = v.nodes[id];
    assert(v.shape_ok(id));
    assert(v.size_ok(id));
    assert(w.nodes[id].children == vn.children);
    assert forall|i: int| 0 <= i < vn.children.len() && !vn.is_leaf implies {
        let c = #[trigger] spec_child(vn.children, i);
        &&& w.in_tree(c)
        &&& w.height(c) + 1 == w.height(id)
        &&& w.nodes[c].parent_node_id == Some(id)
    } by {
        let c = spec_child(vn.children, i);
        assert(v.nodes[c].parent_node_id == Some(id));
        assert(c != a && c != b);
        if c != p && v.nodes[b].children.contains(Some(c)) {
            assert(v.nodes[c].parent_node_id == Some(b));
        }
    }
    let in_b = v.nodes[b].children.contains(Some(id));
    if in_b {
        assert(v.nodes[id].parent_node_id == Some(b));
        assert(w.nodes[a].children.contains(Some(id))) by {
            let j = choose|j: int| 0 <= j < v.nodes[b].children.len() && v.nodes[b].children[j] == Some(id);
            assert(w.nodes[a].children[v.nodes[a].children.len() + j] == Some(id));
        }
        assert(!v.is_root(id));
    } else if !v.is_root(id) {
        let pp = vn.parent_node_id->0;
        assert(v.in_tree(pp));
        assert(v.nodes[pp].children.contains(Some(id)));
        if pp == b {
            lemma_children_parent(v, x, b, id);
        } else if pp == a {
            assert(w.nodes[a].children.contains(Some(id))) by {
                let j = choose|j: int| 0 <= j < v.nodes[a].children.len() && v.nodes[a].children[j] == Some(id);
                assert(w.nodes[a].children[j] == Some(id));
            }
        } else if pp == p {
            let j = choose|j: int| 0 <= j < v.nodes[p].children.len() && v.nodes[p].children[j] == Some(id);
            assert(j != k + 1);
            let jj = if j < k + 1 { j } else { j - 1 };
            assert(w.nodes[p].children[jj] == Some(id));
        } else if v.nodes[b].children.contains(Some(pp)) {
            assert(v.nodes[pp].parent_node_id == Some(b));
            lemma_children_parent(v, x, pp, id);
        }
    }
}

/// A merge leaves a tree well formed but perhaps for the parent's record
/// count.
pub proof fn lemma_merge_wf(v: TreeView, w: TreeView, x: u64, a: u64, b: u64, p: u64, k: int)
    requires
        spec_merge_done(v, w, x, a, b, p, k),
    ensures
        w.wf_except(p),
{
    lemma_merge_facts(v, w, x, a, b, p, k);
    assert(w.structure_ok()) by {
        assert(w.in_tree(v.root->0)) by {
            assert(v.in_tree(v.root->0));
        }
        assert forall|id: u64| #[trigger] w.in_tree(id) implies w.height(id) <= w.tree_height() by {
            assert(v.in_tree(id));
        }
    }
    assert forall|id: u64| #[trigger] w.in_tree(id) implies w.shape_ok(id) && (id != p ==> w.size_ok(id)) by {
        assert(v.in_tree(id));
        if id == a {
            lemma_merge_node_wf(v, w, x, a, b, p, k);
        } else if id == p {
            lemma_merge_parent_wf(v, w, x, a, b, p, k);
        } else {
            lemma_merge_other_wf(v, w, x, a, b, p, k, id);
        }
    }
}

} // verus!

verus! {

/// The smallest record under node `id` (the first of the leftmost leaf),
/// and that leaf.
pub open spec fn spec_smallest(v: TreeView, id: u64) -> (Record, u64)
    decreases v.height(id),
{
    let n = v.nodes[id];
    match n.children[0] {
        Some(c) => if v.in_tree(c) && v.height(c) < v.height(id) {
            spec_smallest(v, c)
        } else {
            (n.keys[0], id)
        },
        None => (n.keys[0], id),
    }
}

/// The largest record under node `id` (the last of the rightmost leaf),
/// and that leaf.
pub open spec fn spec_largest(v: TreeView, id: u64) -> (Record, u64)
    decreases v.height(id),
{
    let n = v.nodes[id];
    match n.children.last() {
        Some(c) => if v.in_tree(c) && v.height(c) < v.height(id) {
            spec_largest(v, c)
        } else {
            (n.keys.last(), id)
        },
        None => (n.keys.last(), id),
    }
}

/// In a well-formed tree the smallest and the largest record under a node
/// are the first and the last record of a leaf below it (or of the node).
pub proof fn lemma_extremes(v: TreeView, id: u64)
    requires
        v.wf(),
        v.in_tree(id),
    ensures
        ({
            let (r, l) = spec_smallest(v, id);
            &&& v.in_tree(l)
            &&& v.nodes[l].is_leaf
            &&& v.nodes[l].keys.len() >= 1
            &&& r == v.nodes[l].keys[0]
            &&& (l == id || v.height(l) < v.height(id))
        }),
        ({
            let (r, l) = spec_largest(v, id);
            &&& v.in_tree(l)
            &&& v.nodes[l].is_leaf
            &&& v.nodes[l].keys.len() >= 1
            &&& r == v.nodes[l].keys.last()
            &&& (l == id || v.height(l) < v.height(id))
        }),
    decreases v.height(id),
{
    assert(v.shape_ok(id));
    assert(v.size_ok(id));
    let n = v.nodes[id];
    if !n.is_leaf {
        let c0 = spec_child(n.children, 0);
        let cl = spec_child(n.children, n.children.len() - 1);
        assert(n.children[0] == Some(c0));
        assert(n.children.last() == Some(cl));
        lemma_extremes(v, c0);
        lemma_extremes(v, cl);
    } else {
        assert(n.children[0] is None);
        assert(n.children[n.children.len() - 1] is None);
    }
}

/// Node `n` without its record and child at position `i`.
pub open spec fn spec_leaf_remove(n: NodeView, i: int) -> NodeView {
    NodeView { keys: n.keys.remove(i), children: n.children.remove(i), ..n }
}

/// Position of `key` among the records of node `id`.
pub open spec fn spec_key_pos(v: TreeView, id: u64, key: u64) -> int {
    let n = v.nodes[id];
    spec_bsearch(n.keys, key, 0, n.keys.len() as int)->Ok_0 as int
}

/// The leaf that loses a record when `key` is deleted from node `id`: the
/// node itself when a leaf, else the leaf of the smallest record to the
/// right of the key.
pub open spec fn spec_delete_leaf(v: TreeView, id: u64, key: u64) -> u64 {
    let n = v.nodes[id];
    if n.is_leaf {
        id
    } else {
        spec_smallest(v, spec_child(n.children, spec_key_pos(v, id, key) + 1)).1
    }
}

/// The tree after `key` is deleted from node `id`: out of a leaf it is
/// removed with a child; in an inner node it is replaced by the smallest
/// record to its right, which leaves its leaf.
pub open spec fn spec_deleted(v: TreeView, id: u64, key: u64) -> TreeView {
    let n = v.nodes[id];
    let pos = spec_key_pos(v, id, key);
    if n.is_leaf {
        spec_view_with(v, id, spec_leaf_remove(n, pos))
    } else {
        let (r, l) = spec_smallest(v, spec_child(n.children, pos + 1));
        spec_view_with(
            spec_view_with(v, id, NodeView { keys: n.keys.update(pos, r), ..n }),
            l,
            spec_leaf_remove(v.nodes[l], 0),
        )
    }
}

/// What deleting `key` from node `id` of `v` needs: a well-formed tree
/// with the key in that node.
pub open spec fn spec_delete_pre(v: TreeView, id: u64, key: u64) -> bool {
    let n = v.nodes[id];
    &&& v.wf()
    &&& v.in_tree(id)
    &&& spec_bsearch(n.keys, key, 0, n.keys.len() as int) is Ok
}

/// A deletion leaves a tree well formed but for the record count of the
/// leaf that lost a record, which has one record fewer.
pub proof fn lemma_deleted_wf(v: TreeView, id: u64, key: u64)
    requires
        spec_delete_pre(v, id, key),
    ensures
        ({
            let w = spec_deleted(v, id, key);
            let l = spec_delete_leaf(v, id, key);
            &&& w.wf_except(l)
            &&& w.heights == v.heights
            &&& w.root == v.root
            &&& w.in_tree(l)
            &&& w.nodes[l].is_leaf
            &&& w.nodes[l].keys.len() + 1 == v.nodes[l].keys.len()
            &&& (!w.is_root(l) ==> w.nodes[l].keys.len() + 1 >= v.order)
            &&& (l != id ==> w.nodes[id].keys.len() == v.nodes[id].keys.len())
        }),
{
    let n = v.nodes[id];
    let pos = spec_key_pos(v, id, key);
    let w = spec_deleted(v, id, key);
    let l = spec_delete_leaf(v, id, key);
    assert(v.shape_ok(id) && v.size_ok(id));
    lemma_bsearch_range(n.keys, key, 0, n.keys.len() as int);
    if n.is_leaf {
        let m = w.nodes[id];
        assert(spec_well_shaped(m)) by {
            assert forall|i: int| 0 <= i < m.children.len() implies (#[trigger] m.children[i] is Some) != m.is_leaf by {
                assert(m.children[i] == n.children[if i < pos { i } else { i + 1 }]);
            }
        }
        assert(spec_children_distinct(m.children)) by {
            assert forall|i: int, j: int| 0 <= i < j < m.children.len() && m.children[i] is Some implies #[trigger] m.children[i] != #[trigger] m.children[j] by {
                assert(m.children[i] == n.children[if i < pos { i } else { i + 1 }]);
            }
        }
        assert forall|x: u64| #[trigger] w.in_tree(x) implies w.shape_ok(x) && (x != l ==> w.size_ok(x)) by {
            assert(v.in_tree(x));
            assert(v.shape_ok(x) && v.size_ok(x));
            if x != id {
                let nx = v.nodes[x];
                assert forall|i: int| 0 <= i < nx.children.len() && !nx.is_leaf implies {
                    let c = #[trigger] spec_child(nx.children, i);
                    &&& w.in_tree(c)
                    &&& w.height(c) + 1 == w.height(x)
                    &&& w.nodes[c].parent_node_id == Some(x)
                } by {
                    let c = spec_child(nx.children, i);
                    assert(v.nodes[c].parent_node_id == Some(x));
                }
            }
        }
        assert(w.structure_ok()) by {
            assert forall|x: u64| #[trigger] w.in_tree(x) implies w.height(x) <= w.tree_height() by {
                assert(v.in_tree(x));
            }
        }
    } else {
        let c = spec_child(n.children, pos + 1);
        assert(n.children[pos + 1] == Some(c));
        assert(v.in_tree(c) && v.height(c) + 1 == v.height(id));
        lemma_extremes(v, c);
        let (r, lf) = spec_smallest(v, c);
        assert(lf == l);
        assert(l != id);
        assert(!v.is_root(l)) by {
            assert(v.height(id) <= v.tree_height());
        }
        assert(v.shape_ok(l) && v.size_ok(l));
        let m = w.nodes[l];
        assert(m == spec_leaf_remove(v.nodes[l], 0));
        assert(spec_well_shaped(m)) by {
            assert forall|i: int| 0 <= i < m.children.len() implies (#[trigger] m.children[i] is Some) != m.is_leaf by {
                assert(m.children[i] == v.nodes[l].children[i + 1]);
            }
        }
        assert forall|x: u64| #[trigger] w.in_tree(x) implies w.shape_ok(x) && (x != l ==> w.size_ok(x)) by {
            assert(v.in_tree(x));
            assert(v.shape_ok(x) && v.size_ok(x));
            let nx = v.nodes[x];
            assert(w.nodes[x].children == nx.children || x == l);
            if x != l {
                assert forall|i: int| 0 <= i < nx.children.len() && !nx.is_leaf implies {
                    let c = #[trigger] spec_child(nx.children, i);
                    &&& w.in_tree(c)
                    &&& w.height(c) + 1 == w.height(x)
                    &&& w.nodes[c].parent_node_id == Some(x)
                } by {
                    let c = spec_child(nx.children, i);
                    assert(v.nodes[c].parent_node_id == Some(x));
                }
            }
            if !w.is_root(x) {
                let pp = nx.parent_node_id->0;
                assert(w.nodes[pp].children == v.nodes[pp].children) by {
                    if pp == l {
                        assert(v.nodes[pp].children.contains(Some(x)));
                        let j = choose|j: int| 0 <= j < v.nodes[pp].children.len() && v.nodes[pp].children[j] == Some(x);
                        assert(v.shape_ok(pp));
                        assert(v.nodes[pp].children[j] is Some);
                    }
                }
            }
        }
        assert(w.structure_ok()) by {
            assert forall|x: u64| #[trigger] w.in_tree(x) implies w.height(x) <= w.tree_height() by {
                assert(v.in_tree(x));
            }
        }
    }
}

} // verus!

verus! {

/// Where a search ends in a well-formed tree: a record with the key in a
/// node of the tree, or the insert position in a leaf.
pub proof fn lemma_search_ends(v: TreeView, id: u64, key: u64)
    requires
        v.wf(),
        v.in_tree(id),
    ensures
        match spec_search(v, id, key) {
            Ok((r, n)) => v.in_tree(n) && r.key == key && spec_bsearch(
                v.nodes[n].keys,
                key,
                0,
                v.nodes[n].keys.len() as int,
            ) is Ok && r == v.nodes[n].keys[spec_key_pos(v, n, key)],
            Err((i, n)) => v.in_tree(n) && v.nodes[n].is_leaf && spec_bsearch(
                v.nodes[n].keys,
                key,
                0,
                v.nodes[n].keys.len() as int,
            ) == Err::<usize, usize>(i as usize) && i <= v.nodes[n].keys.len(),
        },
    decreases v.height(id),
{
    let n = v.nodes[id];
    assert(v.shape_ok(id));
    lemma_bsearch_range(n.keys, key, 0, n.keys.len() as int);
    match spec_bsearch(n.keys, key, 0, n.keys.len() as int) {
        Ok(i) => {},
        Err(i) => {
            if n.children[i as int] is Some {
                let c = spec_child(n.children, i as int);
                assert(v.in_tree(c));
                lemma_search_ends(v, c, key);
            }
        },
    }
}

/// A record with `key` is in the tree `v` as a search from the root finds it.
pub open spec fn spec_found(v: TreeView, key: u64) -> bool {
    match v.root {
        Some(root) => spec_search(v, root, key) is Ok,
        None => false,
    }
}

/// A leaf of height 0 with room for a record, whose other nodes are well
/// formed, is well formed but for its record count once the record is put
/// into it.
pub proof fn lemma_leaf_insert_wf(v: TreeView, l: u64, r: Record)
    requires
        v.structure_ok(),
        v.in_tree(l),
        v.height(l) == 0,
        forall|id: u64| #[trigger] v.in_tree(id) && id != l ==> v.shape_ok(id) && v.size_ok(id),
        v.nodes.contains_key(l),
        v.nodes[l].is_leaf,
        !v.nodes[l].is_deleted,
        v.nodes[l].id == l,
        v.nodes[l].keys.len() + 1 <= spec_max_keys(v.order),
        (v.nodes[l].children.len() == v.nodes[l].keys.len() + 1 && forall|i: int|
            0 <= i < v.nodes[l].children.len() ==> #[trigger] v.nodes[l].children[i] is None) || (
        v.nodes[l].children.len() == 0 && v.nodes[l].keys.len() == 0),
        if v.is_root(l) {
            v.nodes[l].parent_node_id is None
        } else {
            &&& v.nodes[l].parent_node_id is Some
            &&& v.in_tree(v.nodes[l].parent_node_id->0)
            &&& v.nodes[v.nodes[l].parent_node_id->0].children.contains(Some(l))
        },
    ensures
        spec_view_with(v, l, spec_basic_insert(v.nodes[l], r, None, None)).wf_except(l),
{
    let n = v.nodes[l];
    let m = spec_basic_insert(n, r, None, None);
    let w = spec_view_with(v, l, m);
    lemma_insert_pos(n.keys, r.key);
    let p = spec_insert_pos(n.keys, r.key);
    assert forall|i: int| 0 <= i < m.children.len() implies #[trigger] m.children[i] is None by {
        if n.children.len() == 0 {
            assert(m.children =~= seq![None, None]);
        } else {
            assert(m.children[i] == if i <= p { n.children[i] } else if i == p + 1 { None } else { n.children[i - 1] });
        }
    }
    assert(m.children.len() == m.keys.len() + 1);
    assert(spec_well_shaped(m));
    assert(spec_children_distinct(m.children));
    assert(w.shape_ok(l));
    assert(w.structure_ok()) by {
        assert forall|id: u64| #[trigger] w.in_tree(id) implies w.height(id) <= w.tree_height() by {
            assert(v.in_tree(id));
        }
    }
    assert forall|id: u64| #[trigger] w.in_tree(id) implies w.shape_ok(id) && (id != l ==> w.size_ok(id)) by {
        if id != l {
            assert(v.in_tree(id));
            assert(v.shape_ok(id) && v.size_ok(id));
            let nx = v.nodes[id];
            assert forall|i: int| 0 <= i < nx.children.len() && !nx.is_leaf implies {
                let c = #[trigger] spec_child(nx.children, i);
                &&& w.in_tree(c)
                &&& w.height(c) + 1 == w.height(id)
                &&& w.nodes[c].parent_node_id == Some(id)
            } by {
                let c = spec_child(nx.children, i);
                assert(v.nodes[c].parent_node_id == Some(id));
            }
            if !w.is_root(id) {
                let pp = nx.parent_node_id->0;
                if pp == l {
                    assert(v.nodes[pp].children.contains(Some(id)));
                    let j = choose|j: int| 0 <= j < v.nodes[pp].children.len() && v.nodes[pp].children[j] == Some(id);
                    assert(n.children[j] is None);
                }
            }
        }
    }
}

} // verus!

verus! {

/// The node store has room for the nodes that an insertion or a deletion
/// may add: fewer than a quarter of the page indexes are taken.
pub open spec fn spec_room(t: BTree) -> bool {
    t.nodes_file.next_id < usize::MAX / 4
}

/// With room in the store, the ids of the nodes an insertion or a deletion
/// adds (at most two per level) stay below the largest page index.
pub proof fn lemma_room(t: BTree)
    requires
        t.wf(),
        spec_room(t),
    ensures
        t.nodes_file.next_id + 2 * t.tree_height() + 8 < usize::MAX,
{
    assert(t.tree_height() < t.nodes_file.next_id || t.tree_height() == 0);
}

/// The record that a search from the root finds for `key`.
pub open spec fn spec_found_record(v: TreeView, key: u64) -> Record {
    spec_search(v, v.root->0, key)->Ok_0.0
}


/// `new` is data store `old` after `bytes` were written to the slot of
/// `data_id`.
pub open spec fn spec_data_written(old: DataFile, new: DataFile, data_id: u64, bytes: Seq<u8>) -> bool {
    &&& new.wf()
    &&& new.buffer_size == old.buffer_size
    &&& new.slot(data_id) == bytes
    &&& forall|i: int|
        !(data_id * crate::consts::MAX_RECORD_LENGTH <= i < data_id * crate::consts::MAX_RECORD_LENGTH
            + crate::consts::MAX_RECORD_LENGTH) ==> #[trigger] new.byte_at(i) == old.byte_at(i)
}

/// Law: data written to the slot of a data id reads back as written (when it
/// does not start with padding), and the slots of other data ids keep what
/// they held.
pub proof fn lemma_written_read(old: DataFile, new: DataFile, data_id: u64, bytes: Seq<u8>, other: u64)
    requires
        spec_data_written(old, new, data_id, bytes),
        bytes.len() == crate::consts::MAX_RECORD_LENGTH,
        bytes[0] != crate::consts::PADDING_CHAR,
        other != data_id,
    ensures
        new.spec_read(data_id) == Ok::<Seq<u8>, crate::data::DataError>(bytes),
        new.slot(other) == old.slot(other),
{
    assert(new.slot(data_id)[0] == bytes[0]);
    assert forall|j: int| 0 <= j < crate::consts::MAX_RECORD_LENGTH implies #[trigger] new.slot(other)[j] == old.slot(other)[j] by {
        let i = other * crate::consts::MAX_RECORD_LENGTH + j;
        if other < data_id {
            assert(other * crate::consts::MAX_RECORD_LENGTH + crate::consts::MAX_RECORD_LENGTH <= data_id * crate::consts::MAX_RECORD_LENGTH) by (nonlinear_arith)
                requires other < data_id;
        } else {
            assert(data_id * crate::consts::MAX_RECORD_LENGTH + crate::consts::MAX_RECORD_LENGTH <= other * crate::consts::MAX_RECORD_LENGTH) by (nonlinear_arith)
                requires other > data_id;
        }
        assert(new.byte_at(i) == old.byte_at(i));
    }
    assert(new.slot(other) =~= old.slot(other));
}

impl BTree {
    /// Inserts a record with `key`; refused when the tree has one. Its data
    /// id is the given one for `ExistingData`, else the data store's next
    /// id, whose slot gets the data of `NewData`.
    #[verifier::spinoff_prover]
    #[verifier::rlimit(60)]
    pub fn insert(&mut self, key: u64, data: Inserted_Data) -> (r: Result<(), ()>)
        requires
            old(self).wf(),
            spec_room(*old(self)),
            data is NewData && !spec_found(old(self).view(), key) ==> old(self).data_file.in_range(
                old(self).data_file.next_id,
            ) && old(self).data_file.next_id < u64::MAX,
            crate::contents::spec_ordered(old(self).view()),
        ensures
            r is Err <==> spec_found(old(self).view(), key),
            r is Err <==> crate::contents::spec_has_key(crate::contents::spec_records(old(self).view()), key),
            r is Err ==> spec_same_tree(*old(self), *final(self)),
            r is Ok ==> final(self).wf(),
            r is Ok ==> crate::contents::spec_ordered(final(self).view()),
            r is Ok ==> crate::contents::spec_inserted(
                crate::contents::spec_records(old(self).view()),
                crate::contents::spec_records(final(self).view()),
                Record {
                    key,
                    data_id: match data {
                        Inserted_Data::ExistingData(id) => id,
                        _ => old(self).data_file.next_id,
                    },
                },
            ),
            final(self).order == old(self).order,
            r is Ok ==> spec_grown(
                old(self).view(),
                final(self).view(),
                old(self).nodes_file.next_id,
                final(self).nodes_file.next_id,
            ),
            r is Ok ==> final(self).tree_height() <= old(self).tree_height() + 1,
            spec_store_frame(*old(self), *final(self)),
            r is Ok ==> final(self).nodes_file.next_id <= old(self).nodes_file.next_id + old(self).tree_height() + 2,
            r is Ok ==> spec_insert_layout(
                old(self).view(),
                final(self).view(),
                Record {
                    key,
                    data_id: match data {
                        Inserted_Data::ExistingData(id) => id,
                        _ => old(self).data_file.next_id,
                    },
                },
                old(self).nodes_file.next_id,
            ),
            r is Ok ==> match data {
                Inserted_Data::NewData(d) => {
                    &&& spec_data_written(old(self).data_file, final(self).data_file, old(self).data_file.next_id, d@)
                    &&& final(self).data_file.next_id == old(self).data_file.next_id + 1
                },
                _ => final(self).data_file == old(self).data_file,
            },
    {
        proof {
            lemma_room(*old(self));
        }
        let ghost v = self.view();
        proof {
            if let Some(root) = v.root {
                lemma_search_ends(v, root, key);
                assert(v.in_tree(root));
                crate::contents::lemma_search_correct(v, root, key);
            }
        }
        match self.search(key) {
            Ok(_) => Err(()),
            Err((_, leaf_id)) => {
                let mut node_id: u64 = leaf_id;
                let ghost b0 = *self;
                let ghost mut root0: NodeView = arbitrary();
                if self.root_id.is_none() {
                    proof {
                        assert(self.heights@.dom() =~= Set::<u64>::empty());
                        assert(spec_stored_ok(*self));
                    }
                    let root = self.create_new_root(true);
                    node_id = root.id;
                    proof {
                        root0 = root@;
                    }
                    let ghost bc = *self;
                    self.heights = Ghost(self.heights@.insert(root.id, 0));
                    proof {
                        lemma_frame_grow(b0, bc, *self);
                        lemma_frame_trans(*old(self), b0, *self);
                        assert(root.id == node_id);
                        let t = self.view();
                        assert(t.nodes.dom() =~= set![node_id]);
                        assert(t.in_tree(node_id));
                        assert forall|id: u64| #[trigger] self.in_tree(id) implies self.nodes_file.readable(id)
                            && id < self.nodes_file.next_id by {}
                        assert(t.structure_ok());
                        let n = t.nodes[node_id];
                        assert(n == root@ || n == crate::node::spec_normalize(root@));
                        if n != root@ {
                            assert forall|i: int| 0 <= i < n.children.len() implies #[trigger] n.children[i] is None by {}
                        }
                        lemma_leaf_insert_wf(t, node_id, Record { key, data_id: 0 });
                    }
                } else {
                    proof {
                        lemma_wf_stored(*self, node_id);
                    }
                }
                proof {
                    assert(self.store_ok());
                    assert(self.in_tree(node_id));
                }
                let ghost bpre = *self;
                let mut node = self.get_node(node_id);
                let ghost b1 = *self;
                proof {
                    if b0.root_id is Some {
                        assert forall|id: u64| #[trigger] bpre.in_tree(id) implies spec_well_shaped(bpre.node(id)) by {
                            assert(b0.view().in_tree(id));
                            assert(b0.view().shape_ok(id));
                        }
                        self.lemma_kept_same_tree(&bpre);
                    }
                }
                let data_id = match &data {
                    Inserted_Data::ExistingData(id) => *id,
                    _ => self.data_file.next_id,
                };
                let record = Record::new(key, data_id);
                match data {
                    Inserted_Data::NewData(d) => {
                        self.data_file.write_data(&record, &d);
                    },
                    _ => {},
                }
                proof {
                    lemma_frame_trans(*old(self), bpre, b1);
                    lemma_frame_kept(b1, *self);
                    lemma_frame_trans(*old(self), b1, *self);
                    assert forall|id: u64| #[trigger] self.in_tree(id) implies self.nodes_file.readable(id)
                        && id < self.nodes_file.next_id by {
                        assert(bpre.in_tree(id));
                        assert(bpre.nodes_file.readable(id));
                    }
                    assert(self.wf_base());
                    assert(self.view().nodes =~= b1.view().nodes);
                    let t = self.view();
                    if b0.root_id is Some {
                        assert(t == b0.view());
                        assert(t.wf());
                        assert(t.shape_ok(node_id) && t.size_ok(node_id));
                        assert forall|i: int| 0 <= i < node@.children.len() implies #[trigger] node@.children[i] is None by {}
                        lemma_leaf_insert_wf(t, node_id, record);
                    } else {
                        let t2 = spec_view_with(t, node_id, node@);
                        assert(t2.nodes.dom() =~= set![node_id]);
                        assert(node@ == bpre.node(node_id));
                        let n = node@;
                        if n != root0 {
                            crate::node::lemma_normalize_well_shaped(crate::node::spec_normalize(root0));
                            assert forall|i: int| 0 <= i < n.children.len() implies #[trigger] n.children[i] is None by {}
                        }
                        assert(t2.structure_ok());
                        lemma_leaf_insert_wf(t2, node_id, record);
                        let m = spec_basic_insert(node@, record, None, None);
                        assert(spec_view_with(t2, node_id, m).nodes =~= spec_view_with(t, node_id, m).nodes);
                        assert(spec_view_with(t2, node_id, m) == spec_view_with(t, node_id, m));
                    }
                    assert(node.id == node_id);
                    assert(self.height(node_id) == 0);
                    assert(self.tree_height() <= v.tree_height());
                    assert(self.nodes_file.next_id <= old(self).nodes_file.next_id + 1);
                    assert(old(self).tree_height() == v.tree_height());
                    let w = spec_view_with(self.view(), node_id, spec_basic_insert(node@, record, None, None));
                    if b0.root_id is Some {
                        crate::contents::lemma_insert_records(v, record);
                        assert(w == crate::contents::spec_leaf_added(v, node_id, record));
                    } else {
                        let m = spec_basic_insert(node@, record, None, None);
                        assert forall|j: int| 0 <= j < m.children.len() implies #[trigger] m.children[j] is None by {
                            crate::btree::lemma_insert_pos(node@.keys, key);
                            if node@.children.len() == 0 {
                                assert(m.children =~= seq![None, None]);
                            } else {
                                assert(node@.children[0] is None);
                            }
                        }
                        crate::btree::lemma_insert_pos(node@.keys, key);
                        crate::contents::lemma_childless_inorder(w, node_id);
                        assert(m.keys =~= seq![record]);
                        assert(crate::contents::spec_records(w) =~= crate::contents::spec_records(v).insert(0, record));
                    }
                    assert(self.nodes_file.next_id + 2 * ((self.tree_height() - self.height(node.id) + 2) as nat) + 2 < usize::MAX);
                    assert(crate::node::spec_insert_pre(*self, node@, record, None, None, (self.tree_height() - self.height(node.id) + 2) as nat));
                    if b0.root_id is Some {
                        assert(self.view() == v);
                        assert(self.nodes_file.next_id == old(self).nodes_file.next_id);
                        assert(node_id == spec_search(v, v.root->0, key)->Err_0.1);
                    } else {
                        crate::btree::lemma_insert_pos(node@.keys, key);
                        assert(spec_basic_insert(node@, record, None, None).keys =~= seq![record]);
                        assert(node_id == old(self).nodes_file.next_id);
                        assert(self.root_id == Some(node_id));
                    }
                }
                let ghost bcall = *self;
                let ghost nd = node@;
                let r = node.insert(self, record, None, None);
                proof {
                    lemma_frame_trans(*old(self), bcall, *self);
                    if b0.root_id is None {
                        assert(self.view() == spec_view_with(
                            bcall.view(),
                            node_id,
                            spec_basic_insert(nd, record, None, None),
                        ));
                    }
                }
                r
            },
        }
    }

    /// Deletes the record with `key`; refused when the tree has none.
    pub fn delete(&mut self, key: u64) -> (r: Result<(), ()>)
        requires
            old(self).wf(),
            spec_room(*old(self)),
            crate::contents::spec_ordered(old(self).view()),
        ensures
            r is Err <==> !spec_found(old(self).view(), key),
            r is Err <==> !crate::contents::spec_has_key(crate::contents::spec_records(old(self).view()), key),
            r is Err ==> spec_same_tree(*old(self), *final(self)),
            r is Ok ==> final(self).wf(),
            r is Ok ==> crate::contents::spec_ordered(final(self).view()),
            r is Ok ==> crate::contents::spec_removed(
                crate::contents::spec_records(old(self).view()),
                crate::contents::spec_records(final(self).view()),
                key,
            ),
            r is Ok ==> final(self).nodes_file.next_id == old(self).nodes_file.next_id,
            r is Ok ==> final(self).tree_height() <= old(self).tree_height(),
            r is Ok ==> spec_delete_layout(old(self).view(), final(self).view(), key),
            spec_store_frame(*old(self), *final(self)),
            old(self).root_id is None ==> *final(self) == *old(self),
            final(self).data_file == old(self).data_file,
            final(self).order == old(self).order,
    {
        proof {
            lemma_room(*old(self));
        }
        let ghost v = self.view();
        proof {
            if let Some(root) = v.root {
                lemma_search_ends(v, root, key);
                assert(v.in_tree(root));
                crate::contents::lemma_search_correct(v, root, key);
            }
        }
        let (_, node_id) = match self.search(key) {
            Ok(found) => found,
            Err(_) => {
                return Err(());
            },
        };
        proof {
            lemma_wf_stored(*self, node_id);
            assert(self.in_tree(node_id));
        }
        let ghost bs = *self;
        let mut node = self.get_node(node_id);
        let ghost b1 = *self;
        proof {
            assert forall|id: u64| #[trigger] bs.in_tree(id) implies spec_well_shaped(bs.node(id)) by {}
            self.lemma_kept_same_tree(&bs);
            lemma_same_tree_trans(*old(self), bs, b1);
            lemma_wf_same_tree(*old(self), b1);
            assert(v.in_tree(node_id));
            assert(v.shape_ok(node_id));
        }
        let rd = node.delete(self, key);
        proof {
            lemma_frame_trans(*old(self), bs, b1);
            lemma_frame_trans(*old(self), b1, *self);
        }
        rd?;
        Ok(())
    }
}

} // verus!

verus! {

impl BTree {
    /// Moves the record with `old_key` to `new_key`, writing `NewData` over
    /// its data slot; refused when `old_key` is not in the tree or
    /// `new_key` is, for another record.
    #[verifier::spinoff_prover]
    #[verifier::rlimit(60)]
    pub fn update(&mut self, old_key: u64, new_key: u64, new_data: Inserted_Data) -> (r: Result<(), ()>)
        requires
            old(self).wf(),
            spec_room(*old(self)),
            crate::contents::spec_ordered(old(self).view()),
            spec_found(old(self).view(), old_key) && (old_key == new_key || !spec_found(
                old(self).view(),
                new_key,
            )) && new_data is NewData ==> old(self).data_file.in_range(
                spec_found_record(old(self).view(), old_key).data_id,
            ) && old(self).data_file.next_id < u64::MAX,
        ensures
            final(self).order == old(self).order,
            (r is Ok) == (crate::contents::spec_has_key(crate::contents::spec_records(old(self).view()), old_key)
                && (old_key == new_key || !crate::contents::spec_has_key(
                crate::contents::spec_records(old(self).view()),
                new_key,
            ))),
            r is Err ==> spec_same_tree(*old(self), *final(self)),
            spec_store_frame(*old(self), *final(self)),
            r is Ok ==> {
                &&& old(self).nodes_file.next_id <= final(self).nodes_file.next_id
                &&& forall|id: u64|
                    old(self).nodes_file.next_id <= id < final(self).nodes_file.next_id
                        ==> #[trigger] final(self).in_tree(id)
                &&& final(self).tree_height() <= old(self).tree_height() + 1
                &&& final(self).nodes_file.next_id <= old(self).nodes_file.next_id + old(self).tree_height() + 2
                &&& old_key == new_key ==> final(self).nodes_file.next_id == old(self).nodes_file.next_id
                &&& final(self).wf()
                &&& crate::contents::spec_ordered(final(self).view())
                &&& match new_data {
                    Inserted_Data::NewData(d) => {
                        &&& spec_data_written(
                            old(self).data_file,
                            final(self).data_file,
                            spec_found_record(old(self).view(), old_key).data_id,
                            d@,
                        )
                        &&& final(self).data_file.next_id == old(self).data_file.next_id + 1
                    },
                    _ => final(self).data_file == old(self).data_file,
                }
                &&& old_key == new_key ==> final(self).view() == old(self).view()
                &&& old_key != new_key ==> exists|mid: TreeView|
                    #![trigger spec_delete_layout(old(self).view(), mid, old_key)]
                    spec_delete_layout(old(self).view(), mid, old_key) && spec_insert_layout(
                        mid,
                        final(self).view(),
                        Record { key: new_key, data_id: spec_found_record(old(self).view(), old_key).data_id },
                        old(self).nodes_file.next_id,
                    )
                &&& old_key != new_key ==> crate::contents::spec_moved(
                    crate::contents::spec_records(old(self).view()),
                    crate::contents::spec_records(final(self).view()),
                    old_key,
                    Record { key: new_key, data_id: spec_found_record(old(self).view(), old_key).data_id },
                )
            },
    {
        proof {
            lemma_room(*old(self));
        }
        proof {
            if let Some(root) = self.root_id {
                assert(self.view().in_tree(root));
                crate::contents::lemma_search_correct(self.view(), root, old_key);
                crate::contents::lemma_search_correct(self.view(), root, new_key);
            }
        }
        let ghost v = self.view();
        let found_old = self.search(old_key);
        if let Ok((record, _)) = found_old {
            let ghost b1 = *self;
            proof {
                lemma_wf_same_tree(*old(self), b1);
            }
            let found_new = self.search(new_key).is_ok();
            let ghost b2 = *self;
            proof {
                lemma_same_tree_trans(*old(self), b1, b2);
                lemma_frame_trans(*old(self), b1, b2);
            }
            if found_new && old_key != new_key {
                return Err(());
            }
            match new_data {
                Inserted_Data::NewData(data) => {
                    self.data_file.write_data(&record, &data);
                },
                _ => {},
            }
            let ghost b3 = *self;
            proof {
                lemma_frame_kept(b2, b3);
                lemma_frame_trans(*old(self), b2, b3);
                assert(self.view().nodes =~= b2.view().nodes);
                assert forall|id: u64| #[trigger] self.in_tree(id) implies self.nodes_file.readable(id)
                    && id < self.nodes_file.next_id by {
                    assert(b2.in_tree(id));
                }
                assert(self.wf());
            }
            if old_key != new_key {
                self.delete(old_key)?;
                let ghost b4 = *self;
                proof {
                    lemma_frame_trans(*old(self), b3, b4);
                    let rv = crate::contents::spec_records(v);
                    let r4 = crate::contents::spec_records(b4.view());
                    let q = choose|q: int| 0 <= q < rv.len() && rv[q].key == old_key && r4 == #[trigger] rv.remove(q);
                    if crate::contents::spec_has_key(r4, new_key) {
                        let t = choose|t: int| 0 <= t < r4.len() && #[trigger] r4[t].key == new_key;
                        assert(rv[if t < q { t } else { t + 1 }].key == new_key);
                    }
                }
                let r = self.insert(new_key, Inserted_Data::ExistingData(record.data_id));
                proof {
                    lemma_frame_trans(*old(self), b4, *self);
                    assert(r is Ok);
                    assert(spec_grown(b4.view(), self.view(), b4.nodes_file.next_id, self.nodes_file.next_id));
                    assert forall|id: u64|
                        old(self).nodes_file.next_id <= id < self.nodes_file.next_id implies #[trigger] self.in_tree(id) by {
                        assert(b4.nodes_file.next_id == old(self).nodes_file.next_id);
                        assert(self.view().in_tree(id));
                    }
                    assert(b3.view() == v);
                    assert(spec_delete_layout(v, b4.view(), old_key));
                    assert(b4.nodes_file.next_id == old(self).nodes_file.next_id);
                    let rv = crate::contents::spec_records(v);
                    let r4 = crate::contents::spec_records(b4.view());
                    assert(crate::contents::spec_removed(rv, r4, old_key));
                }
                r?;
            }
            Ok(())
        } else {
            Err(())
        }
    }
}

} // verus!

verus! {

/// The nodes of `v` below height `h` are in `w` at the same height with the
/// same records and children (only their parent links may differ, and only
/// just below `h`).
pub open spec fn spec_kept_below(v: TreeView, w: TreeView, h: nat) -> bool {
    forall|id: u64| #[trigger]
        v.in_tree(id) && v.height(id) < h ==> {
            &&& w.in_tree(id)
            &&& w.height(id) == v.height(id)
            &&& w.nodes[id].keys == v.nodes[id].keys
            &&& w.nodes[id].children == v.nodes[id].children
            &&& w.nodes[id].is_leaf == v.nodes[id].is_leaf
            &&& v.height(id) + 1 < h ==> w.nodes[id] == v.nodes[id]
        }
}

pub proof fn lemma_kept_below_trans(u: TreeView, v: TreeView, w: TreeView, h1: nat, h2: nat, h: nat)
    requires
        spec_kept_below(u, v, h1),
        spec_kept_below(v, w, h2),
        h <= h1,
        h <= h2,
    ensures
        spec_kept_below(u, w, h),
{
    assert forall|id: u64| #[trigger] u.in_tree(id) && u.height(id) < h implies {
        &&& w.in_tree(id)
        &&& w.height(id) == u.height(id)
        &&& w.nodes[id].keys == u.nodes[id].keys
        &&& w.nodes[id].children == u.nodes[id].children
        &&& w.nodes[id].is_leaf == u.nodes[id].is_leaf
        &&& u.height(id) + 1 < h ==> w.nodes[id] == u.nodes[id]
    } by {
        assert(v.in_tree(id));
    }
}

pub proof fn lemma_kept_below_lower(v: TreeView, w: TreeView, h1: nat, h: nat)
    requires
        spec_kept_below(v, w, h1),
        h <= h1,
    ensures
        spec_kept_below(v, w, h),
{
}

/// A split only changes the parent links of the nodes below the split one.
pub proof fn lemma_split_kept_below(v: TreeView, w: TreeView, x: u64, n: u64, p: u64, new_root: bool)
    requires
        spec_split_done(v, w, x, n, p, new_root),
    ensures
        spec_kept_below(v, w, v.height(x)),
{
    if !new_root {
        lemma_split_parent_children(v, w, x, n, p, new_root);
    }
    assert forall|id: u64| #[trigger] v.in_tree(id) && v.height(id) < v.height(x) implies {
        &&& w.in_tree(id)
        &&& w.height(id) == v.height(id)
        &&& w.nodes[id].keys == v.nodes[id].keys
        &&& w.nodes[id].children == v.nodes[id].children
        &&& w.nodes[id].is_leaf == v.nodes[id].is_leaf
        &&& v.height(id) + 1 < v.height(x) ==> w.nodes[id] == v.nodes[id]
    } by {
        assert(id != x && id != n);
        assert(id != p);
        let s = v.nodes[x];
        if spec_split_right(s, v.order, n, p).children.contains(Some(id)) {
            lemma_split_halves(v, w, x, n, p, new_root);
            assert(s.children.contains(Some(id)));
            assert(!s.is_leaf) by {
                let j = choose|j: int| 0 <= j < s.children.len() && s.children[j] == Some(id);
                assert(s.children[j] is Some);
            }
            lemma_children_parent(v, x, x, id);
        }
    }
}

/// A merge only changes the parent links of the nodes below the merged ones.
pub proof fn lemma_merge_kept_below(v: TreeView, w: TreeView, x: u64, a: u64, b: u64, p: u64, k: int)
    requires
        spec_merge_done(v, w, x, a, b, p, k),
    ensures
        spec_kept_below(v, w, v.height(x)),
{
    lemma_merge_facts(v, w, x, a, b, p, k);
    assert forall|id: u64| #[trigger] v.in_tree(id) && v.height(id) < v.height(x) implies {
        &&& w.in_tree(id)
        &&& w.height(id) == v.height(id)
        &&& w.nodes[id].keys == v.nodes[id].keys
        &&& w.nodes[id].children == v.nodes[id].children
        &&& w.nodes[id].is_leaf == v.nodes[id].is_leaf
        &&& v.height(id) + 1 < v.height(x) ==> w.nodes[id] == v.nodes[id]
    } by {
        assert(id != a && id != b && id != p);
        let vb = v.nodes[b];
        if vb.children.contains(Some(id)) {
            assert(!vb.is_leaf) by {
                let j = choose|j: int| 0 <= j < vb.children.len() && vb.children[j] == Some(id);
                assert(vb.children[j] is Some);
            }
            lemma_children_parent(v, x, b, id);
        }
    }
}

/// Evening out only changes the parent links of the nodes below the two
/// neighbours.
pub proof fn lemma_redist_kept_below(v: TreeView, w: TreeView, x: u64, s: u64, l: u64, p: u64, kpos: int)
    requires
        spec_redistributed(v, w, x, s, l, p, kpos),
    ensures
        spec_kept_below(v, w, v.height(x)),
{
    assert(v.shape_ok(s));
    assert(v.in_tree(p));
    assert(v.shape_ok(p));
    assert(v.nodes[p].children.contains(Some(s)));
    assert(!v.nodes[p].is_leaf) by {
        let j = choose|j: int| 0 <= j < v.nodes[p].children.len() && v.nodes[p].children[j] == Some(s);
        assert(v.nodes[p].children[j] is Some);
    }
    lemma_children_parent(v, x, p, s);
    assert forall|id: u64| #[trigger] v.in_tree(id) && v.height(id) < v.height(x) implies {
        &&& w.in_tree(id)
        &&& w.height(id) == v.height(id)
        &&& w.nodes[id].keys == v.nodes[id].keys
        &&& w.nodes[id].children == v.nodes[id].children
        &&& w.nodes[id].is_leaf == v.nodes[id].is_leaf
        &&& v.height(id) + 1 < v.height(x) ==> w.nodes[id] == v.nodes[id]
    } by {
        assert(id != s && id != l && id != p);
        if w.nodes[s].children.contains(Some(id)) || w.nodes[l].children.contains(Some(id)) {
            lemma_redist_member(v, w, x, s, l, p, kpos, id);
            let vs = v.nodes[s];
            let vl = v.nodes[l];
            let cp = spec_pool_children(vs, vl);
            let j = choose|j: int| 0 <= j < cp.len() && cp[j] == Some(id);
            assert(v.shape_ok(l));
            if j < vs.children.len() {
                assert(vs.children[j] == Some(id));
                assert(vs.children.contains(Some(id)));
                assert(!vs.is_leaf);
                lemma_children_parent(v, x, s, id);
            } else {
                assert(vl.children[j - vs.children.len()] == Some(id));
                assert(vl.children.contains(Some(id)));
                assert(!vl.is_leaf);
                lemma_children_parent(v, x, l, id);
            }
        }
    }
}

} // verus!

verus! {

/// `w` is `v` after node `x` evened out its records with the neighbour that
/// `spec_partner` picks (the left one of the two keeping the lower half).
pub open spec fn spec_evened(v: TreeView, w: TreeView, x: u64, insertion: bool) -> bool {
    match spec_partner(v, x, insertion) {
        Ok((p, k, s)) => if v.nodes[p].children[k] == Some(x) {
            spec_redistributed(v, w, x, x, s, p, k)
        } else {
            spec_redistributed(v, w, x, s, x, p, k)
        },
        Err(_) => false,
    }
}

} // verus!

verus! {

/// Replacing a node at height `h` or above keeps the nodes below `h`.
pub proof fn lemma_kept_below_with(v: TreeView, id: u64, n: NodeView, h: nat)
    requires
        v.in_tree(id) ==> v.height(id) >= h,
    ensures
        spec_kept_below(v, spec_view_with(v, id, n), h),
{
}

/// Kept below `h` into `spec_view_with(u, p, n)` with `p` not below `h`:
/// kept into `u` too.
pub proof fn lemma_kept_below_without(v: TreeView, u: TreeView, p: u64, n: NodeView, h: nat)
    requires
        spec_kept_below(v, spec_view_with(u, p, n), h),
        v.in_tree(p) ==> v.height(p) >= h,
    ensures
        spec_kept_below(v, u, h),
{
    let w = spec_view_with(u, p, n);
    assert forall|id: u64| #[trigger] v.in_tree(id) && v.height(id) < h implies {
        &&& u.in_tree(id)
        &&& u.height(id) == v.height(id)
        &&& u.nodes[id].keys == v.nodes[id].keys
        &&& u.nodes[id].children == v.nodes[id].children
        &&& u.nodes[id].is_leaf == v.nodes[id].is_leaf
        &&& v.height(id) + 1 < h ==> u.nodes[id] == v.nodes[id]
    } by {
        assert(w.in_tree(id));
        assert(id != p);
        assert(w.nodes[id] == u.nodes[id]);
    }
}

} // verus!

verus! {

/// `w` is `v` after node `x` split as an overfull node does: `x` keeps the
/// lower `order` records and their children, the new node `n` (the next id)
/// takes the upper ones, and when `x` was the root a new root `n + 1` holds
/// the middle record between the two.
pub open spec fn spec_split_layout(v: TreeView, w: TreeView, x: u64, n: u64) -> bool {
    let s = v.nodes[x];
    let o = v.order as int;
    &&& w.in_tree(x)
    &&& w.nodes[x].keys == s.keys.subrange(0, o)
    &&& w.nodes[x].children == s.children.subrange(0, o + 1)
    &&& w.in_tree(n)
    &&& w.nodes[n].keys == s.keys.subrange(o + 1, s.keys.len() as int)
    &&& w.nodes[n].children == s.children.subrange(o + 1, s.children.len() as int)
    &&& w.nodes[n].is_leaf == s.is_leaf
    &&& forall|c: u64| #[trigger] w.nodes[n].children.contains(Some(c)) ==> w.nodes[c].parent_node_id == Some(n)
    &&& v.is_root(x) ==> {
        &&& w.root == Some((n + 1) as u64)
        &&& w.nodes[(n + 1) as u64].keys == seq![s.keys[o]]
        &&& w.nodes[(n + 1) as u64].children == seq![Some(x), Some(n)]
        &&& w.nodes[x].parent_node_id == Some((n + 1) as u64)
        &&& w.nodes[n].parent_node_id == Some((n + 1) as u64)
    }
    &&& !v.is_root(x) ==> {
        let p = s.parent_node_id->0;
        let pn = spec_basic_insert(v.nodes[p], s.keys[o], Some(x), Some(n));
        pn.keys.len() <= 2 * v.order ==> {
            &&& w.nodes[p] == pn
            &&& w.nodes[x].parent_node_id == Some(p)
            &&& w.nodes[n].parent_node_id == Some(p)
        }
    }
}

/// `w` is `v` after the short node `x` merged as the code does: with its
/// right neighbour when it has one (into `x`), else with its left one (into
/// the neighbour), the parent's record between them in the middle; the node
/// merged away leaves the tree.
pub open spec fn spec_merge_layout(v: TreeView, w: TreeView, x: u64) -> bool {
    let p = v.nodes[x].parent_node_id->0;
    let vp = v.nodes[p];
    let pos = spec_position(vp.children, x);
    let k = if pos < vp.keys.len() { pos } else { pos - 1 };
    let mp = spec_merged_parent(vp, k);
    &&& (mp.keys.len() >= v.order || (v.is_root(p) && mp.keys.len() > 0)) ==> w.in_tree(p) && w.nodes[p] == mp
    &&& (v.is_root(p) && mp.keys.len() == 0) ==> w.root == mp.children[0] && !w.in_tree(p)
    &&& spec_merge_halves(v, w, x, p, vp, pos)
}

/// The merged node of `spec_merge_layout`, and the node merged away.
pub open spec fn spec_merge_halves(v: TreeView, w: TreeView, x: u64, p: u64, vp: NodeView, pos: int) -> bool {
    if pos < vp.keys.len() {
        let b = vp.children[pos + 1]->0;
        &&& w.in_tree(x)
        &&& w.nodes[x].keys == v.nodes[x].keys + seq![vp.keys[pos]] + v.nodes[b].keys
        &&& w.nodes[x].children == v.nodes[x].children + v.nodes[b].children
        &&& forall|c: u64| #[trigger] w.nodes[x].children.contains(Some(c)) ==> w.nodes[c].parent_node_id == Some(x)
        &&& !w.in_tree(b)
    } else {
        let a = vp.children[pos - 1]->0;
        &&& w.in_tree(a)
        &&& w.nodes[a].keys == v.nodes[a].keys + seq![vp.keys[pos - 1]] + v.nodes[x].keys
        &&& w.nodes[a].children == v.nodes[a].children + v.nodes[x].children
        &&& forall|c: u64| #[trigger] w.nodes[a].children.contains(Some(c)) ==> w.nodes[c].parent_node_id == Some(a)
        &&& !w.in_tree(x)
    }
}

} // verus!

verus! {

/// The split layout from the tree right after the split step (`u`) and the
/// tree after the parent took the middle record (`w`).
pub proof fn lemma_split_layout(v: TreeView, u: TreeView, w: TreeView, x: u64, n: u64, p: u64)
    requires
        !v.is_root(x) ==> v.nodes[x].parent_node_id == Some(p),
        !v.is_root(x) && spec_basic_insert(v.nodes[p], v.nodes[x].keys[v.order as int], Some(x), Some(n)).keys.len()
            <= 2 * v.order ==> {
            &&& w.nodes[p] == spec_basic_insert(v.nodes[p], v.nodes[x].keys[v.order as int], Some(x), Some(n))
            &&& w.nodes[x] == u.nodes[x]
            &&& w.nodes[n] == u.nodes[n]
        },
        u.in_tree(x),
        u.in_tree(n),
        u.height(x) == v.height(x),
        u.height(n) == v.height(x),
        u.nodes[x] == spec_split_left(v.nodes[x], v.order, p),
        u.nodes[n] == spec_split_right(v.nodes[x], v.order, n, p),
        spec_kept_below(u, w, v.height(x) + 1),
        forall|c: u64| #[trigger] u.nodes[n].children.contains(Some(c)) ==> w.nodes[c].parent_node_id == Some(n),
        v.is_root(x) ==> {
            &&& p == n + 1
            &&& w.nodes[x] == u.nodes[x]
            &&& w.nodes[n] == u.nodes[n]
            &&& w.root == Some(p)
            &&& w.nodes[p].keys == seq![v.nodes[x].keys[v.order as int]]
            &&& w.nodes[p].children == seq![Some(x), Some(n)]
        },
    ensures
        spec_split_layout(v, w, x, n),
{
    assert(w.in_tree(x) && w.in_tree(n));
}

} // verus!

verus! {

/// `w` is `v` after the overfull node `x` was fixed: evened out with the
/// neighbour `spec_partner` picks when there is one, else split (the new
/// node taking id `next`).
pub open spec fn spec_overflow_fixed(v: TreeView, w: TreeView, x: u64, next: u64) -> bool {
    if spec_partner(v, x, true) is Ok {
        spec_evened(v, w, x, true)
    } else {
        spec_split_layout(v, w, x, next)
    }
}

/// `w` is `v` after the short node `x` was fixed: evened out with the
/// neighbour `spec_partner` picks when there is one, else merged.
pub open spec fn spec_underflow_fixed(v: TreeView, w: TreeView, x: u64) -> bool {
    if spec_partner(v, x, false) is Ok {
        spec_evened(v, w, x, false)
    } else {
        spec_merge_layout(v, w, x)
    }
}

} // verus!

verus! {

/// `w` is `v` after record `r` was inserted: into a new root leaf (id
/// `next`) when the tree is empty, else into the leaf its search ends in,
/// which is then evened out or split when overfull.
pub open spec fn spec_insert_layout(v: TreeView, w: TreeView, r: Record, next: u64) -> bool {
    match v.root {
        None => {
            &&& w.root == Some(next)
            &&& w.in_tree(next)
            &&& w.nodes[next].is_leaf
            &&& w.nodes[next].keys == seq![r]
        },
        Some(root) => {
            let l = spec_search(v, root, r.key)->Err_0.1;
            let n2 = spec_basic_insert(v.nodes[l], r, None, None);
            let v2 = spec_view_with(v, l, n2);
            if n2.keys.len() <= 2 * v.order {
                w == v2
            } else {
                spec_overflow_fixed(v2, w, l, next)
            }
        },
    }
}

/// `w` is `v` after the record with `key` was deleted (`spec_deleted`), the
/// leaf that gave up a record then evened out or merged when short; a root
/// leaf left empty leaves an empty tree.
pub open spec fn spec_delete_layout(v: TreeView, w: TreeView, key: u64) -> bool {
    let id = spec_search(v, v.root->0, key)->Ok_0.1;
    spec_deleted_fixed(spec_deleted(v, id, key), w, spec_delete_leaf(v, id, key))
}

/// `w` is `w0` after its leaf `l`, which just lost a record, was fixed.
pub open spec fn spec_deleted_fixed(w0: TreeView, w: TreeView, l: u64) -> bool {
    if w0.is_root(l) && w0.nodes[l].keys.len() == 0 {
        w.root is None
    } else if w0.nodes[l].keys.len() >= w0.order || w0.is_root(l) {
        w == w0
    } else {
        spec_underflow_fixed(w0, w, l)
    }
}

} // verus!

verus! {

/// The children of node `a` of `t` still link to `a` in `w` when `w` kept
/// everything of `t` below `a`.
pub proof fn lemma_children_relinked(t: TreeView, w: TreeView, x: u64, a: u64)
    requires
        t.wf_except(x),
        t.in_tree(a),
        spec_kept_below(t, w, t.height(a) + 1),
    ensures
        forall|c: u64| #[trigger] t.nodes[a].children.contains(Some(c)) ==> w.nodes[c].parent_node_id == Some(a),
{
    assert forall|c: u64| #[trigger] t.nodes[a].children.contains(Some(c)) implies w.nodes[c].parent_node_id == Some(a) by {
        let n = t.nodes[a];
        assert(t.shape_ok(a));
        assert(!n.is_leaf) by {
            let j = choose|j: int| 0 <= j < n.children.len() && n.children[j] == Some(c);
            assert(n.children[j] is Some);
        }
        lemma_children_parent(t, x, a, c);
    }
}

} // verus!

verus! {

/// The nodes of `w` are those of `v` and the new ids `lo..hi`.
pub open spec fn spec_grown(v: TreeView, w: TreeView, lo: u64, hi: u64) -> bool {
    &&& lo <= hi
    &&& forall|id: u64| #[trigger] w.in_tree(id) <==> (v.in_tree(id) || (lo <= id < hi))
}

pub proof fn lemma_grown_trans(u: TreeView, v: TreeView, w: TreeView, a: u64, b: u64, c: u64)
    requires
        spec_grown(u, v, a, b),
        spec_grown(v, w, b, c),
    ensures
        spec_grown(u, w, a, c),
{
}

} // verus!

verus! {

/// Node `id` is stored, below the next id, but not in the tree.
pub open spec fn spec_outside(t: BTree, id: u64) -> bool {
    t.nodes_file.readable(id) && !t.in_tree(id) && id < t.nodes_file.next_id
}

/// From store `a` to store `b`: ids only grow, new tree nodes have new ids,
/// stored nodes outside the tree keep their deleted flag, and every node
/// that left the tree is stored as deleted.
pub open spec fn spec_store_frame(a: BTree, b: BTree) -> bool {
    &&& a.nodes_file.next_id <= b.nodes_file.next_id
    &&& forall|id: u64| #[trigger] b.in_tree(id) ==> a.in_tree(id) || id >= a.nodes_file.next_id
    &&& forall|id: u64| #[trigger]
        spec_outside(a, id) ==> b.nodes_file.readable(id) && b.node(id).is_deleted == a.node(id).is_deleted
    &&& forall|id: u64| #![trigger a.in_tree(id)]
        a.in_tree(id) && !b.in_tree(id) ==> b.nodes_file.readable(id) && b.node(id).is_deleted && id
            < b.nodes_file.next_id
}

pub proof fn lemma_frame_trans(a: BTree, b: BTree, c: BTree)
    requires
        spec_store_frame(a, b),
        spec_store_frame(b, c),
    ensures
        spec_store_frame(a, c),
{
    assert forall|id: u64| #[trigger] spec_outside(a, id) implies c.nodes_file.readable(id) && c.node(id).is_deleted
        == a.node(id).is_deleted by {
        assert(spec_outside(b, id));
    }
    assert forall|id: u64| #![trigger a.in_tree(id)] a.in_tree(id) && !c.in_tree(id) implies c.nodes_file.readable(id)
        && c.node(id).is_deleted && id < c.nodes_file.next_id by {
        if b.in_tree(id) {
        } else {
            assert(spec_outside(b, id));
        }
    }
}

/// Keeping the tree and every stored entry keeps the frame.
pub proof fn lemma_frame_kept(a: BTree, b: BTree)
    requires
        b.heights == a.heights,
        b.nodes_file.next_id == a.nodes_file.next_id,
        spec_store_kept(&a.nodes_file, &b.nodes_file),
    ensures
        spec_store_frame(a, b),
{
    assert forall|id: u64| #[trigger] spec_outside(a, id) implies b.nodes_file.readable(id) && b.node(id).is_deleted
        == a.node(id).is_deleted by {
        assert(a.nodes_file.readable(id));
    }
}

/// Writing node `x`, which is not outside the tree, keeps the frame.
pub proof fn lemma_frame_write(a: BTree, b: BTree, x: u64)
    requires
        b.heights == a.heights,
        b.nodes_file.next_id == a.nodes_file.next_id,
        !spec_outside(a, x),
        forall|id: u64| #[trigger]
            a.nodes_file.readable(id) && id != x ==> b.nodes_file.readable(id) && spec_entry_kept(
                a.node(id),
                b.node(id),
            ),
    ensures
        spec_store_frame(a, b),
{
    assert forall|id: u64| #[trigger] spec_outside(a, id) implies b.nodes_file.readable(id) && b.node(id).is_deleted
        == a.node(id).is_deleted by {
        assert(a.nodes_file.readable(id) && id != x);
    }
}

} // verus!

verus! {

/// Dropping node `x`, stored as deleted, from the tree keeps the frame.
pub proof fn lemma_frame_drop(a: BTree, b: BTree, x: u64)
    requires
        b.nodes_file == a.nodes_file,
        b.heights@ == a.heights@.remove(x),
        a.nodes_file.readable(x),
        a.node(x).is_deleted,
        x < a.nodes_file.next_id,
    ensures
        spec_store_frame(a, b),
{
}

} // verus!

verus! {

/// The frame only looks at the store and the tree's node set.
pub proof fn lemma_frame_congr(a: BTree, a2: BTree, b: BTree)
    requires
        a2.nodes_file == a.nodes_file,
        a2.heights == a.heights,
        spec_store_frame(a2, b),
    ensures
        spec_store_frame(a, b),
{
    assert forall|id: u64| #[trigger] spec_outside(a, id) implies b.nodes_file.readable(id) && b.node(id).is_deleted
        == a.node(id).is_deleted by {
        assert(spec_outside(a2, id));
    }
    assert forall|id: u64| #![trigger a.in_tree(id)] a.in_tree(id) && !b.in_tree(id) implies b.nodes_file.readable(id)
        && b.node(id).is_deleted && id < b.nodes_file.next_id by {
        assert(a2.in_tree(id));
    }
}

} // verus!

verus! {

impl BTree {
    /// The number of levels of the tree: 0 when empty, 1 for a root leaf.
    pub fn levels(&mut self) -> (h: u64)
        requires
            old(self).wf(),
        ensures
            final(self).wf(),
            spec_same_tree(*old(self), *final(self)),
            h == (if old(self).root_id is Some { old(self).tree_height() + 1 } else { 0 }),
    {
        proof {
            lemma_wf_same_tree(*old(self), *self);
        }
        match self.root_id {
            None => 0,
            Some(root_id) => {
                let ghost v = self.view();
                proof {
                    assert(v.in_tree(root_id));
                    lemma_wf_stored(*self, root_id);
                }
                let mut node = self.fetch(root_id);
                let mut h: u64 = 1;
                let ghost mut id = root_id;
                while !node.is_leaf
                    invariant
                        old(self).wf(),
                        self.wf(),
                        spec_same_tree(*old(self), *self),
                        v == old(self).view(),
                        v.wf(),
                        v.in_tree(id),
                        node@ == v.nodes[id],
                        h + v.height(id) == v.tree_height() + 1,
                        v.tree_height() < old(self).nodes_file.next_id,
                    decreases v.height(id),
                {
                    proof {
                        assert(v.shape_ok(id));
                        assert(spec_child(node@.children, 0) == node@.children[0]->0);
                        lemma_wf_stored(*self, id);
                    }
                    let c = node.children[0].unwrap();
                    proof {
                        assert(v.in_tree(c));
                    }
                    let ghost before = *self;
                    node = self.fetch(c);
                    proof {
                        lemma_same_tree_trans(*old(self), before, *self);
                        lemma_wf_same_tree(*old(self), *self);
                        id = c;
                    }
                    h = h + 1;
                }
                proof {
                    assert(v.shape_ok(id));
                }
                h
            },
        }
    }

    /// The number of records in the tree (`None` when it does not fit 64
    /// bits).
    pub fn record_count(&mut self) -> (r: Option<u64>)
        requires
            old(self).wf(),
        ensures
            final(self).wf(),
            spec_same_tree(*old(self), *final(self)),
            match r {
                Some(n) => n == crate::contents::spec_records(old(self).view()).len(),
                None => crate::contents::spec_records(old(self).view()).len() > u64::MAX,
            },
    {
        proof {
            lemma_wf_same_tree(*old(self), *self);
        }
        match self.root_id {
            None => Some(0),
            Some(root_id) => {
                proof {
                    assert(self.view().in_tree(root_id));
                    lemma_wf_stored(*self, root_id);
                }
                let root = self.fetch(root_id);
                let ghost mid = *self;
                proof {
                    lemma_wf_same_tree(*old(self), mid);
                }
                let r = root.count_records(self);
                proof {
                    lemma_same_tree_trans(*old(self), mid, *self);
                }
                r
            },
        }
    }
}

} // verus!

verus! {

/// Storing a new node at the next id keeps the frame.
pub proof fn lemma_frame_create(a: BTree, b: BTree, x: u64)
    requires
        b.heights == a.heights,
        b.nodes_file.next_id == a.nodes_file.next_id + 1,
        x == a.nodes_file.next_id,
        forall|id: u64| #[trigger]
            a.nodes_file.readable(id) && id != x ==> b.nodes_file.readable(id) && spec_entry_kept(
                a.node(id),
                b.node(id),
            ),
    ensures
        spec_store_frame(a, b),
{
    assert forall|id: u64| #[trigger] spec_outside(a, id) implies b.nodes_file.readable(id) && b.node(id).is_deleted
        == a.node(id).is_deleted by {
        assert(a.nodes_file.readable(id) && id != x);
    }
}

/// Adding new ids (from `a`'s next id on) to the tree keeps the frame.
pub proof fn lemma_frame_grow(a: BTree, b: BTree, c: BTree)
    requires
        spec_store_frame(a, b),
        c.nodes_file == b.nodes_file,
        forall|id: u64| #[trigger] b.in_tree(id) ==> c.in_tree(id),
        forall|id: u64| #[trigger] c.in_tree(id) ==> b.in_tree(id) || id >= a.nodes_file.next_id,
    ensures
        spec_store_frame(a, c),
{
    assert forall|id: u64| #[trigger] c.in_tree(id) implies a.in_tree(id) || id >= a.nodes_file.next_id by {
        if b.in_tree(id) {
        }
    }
    assert forall|id: u64| #![trigger a.in_tree(id)] a.in_tree(id) && !c.in_tree(id) implies c.nodes_file.readable(id)
        && c.node(id).is_deleted && id < c.nodes_file.next_id by {
        assert(!b.in_tree(id));
    }
}

} // verus!

verus! {

/// The frame across the steps of a split before the parent takes the middle
/// record: the new node `n` (and a new root `p`) is created, the children
/// are relinked, the three nodes are stored and the new ones join the tree.
pub proof fn lemma_split_frame(
    a: BTree,
    c1: BTree,
    c2: BTree,
    c3: BTree,
    c4: BTree,
    c5: BTree,
    x: u64,
    n: u64,
    p: u64,
    new_root: bool,
)
    requires
        a.store_ok(),
        n == a.nodes_file.next_id,
        spec_store_frame(a, c1),
        spec_store_frame(c1, c2),
        spec_store_frame(c2, c3),
        c1.nodes_file.readable(n),
        c1.nodes_file.next_id == n + 1,
        !c1.node(n).is_deleted,
        c1.heights == a.heights,
        c2.heights == a.heights,
        c3.heights == a.heights,
        new_root ==> p == n + 1 && c2.nodes_file.readable(p) && !c2.node(p).is_deleted
            && c2.nodes_file.next_id == n + 2,
        !new_root ==> a.in_tree(p),
        a.in_tree(x),
        c4.nodes_file.next_id == c3.nodes_file.next_id,
        c4.heights == c3.heights,
        forall|id: u64| #[trigger] c3.nodes_file.readable(id) ==> c4.nodes_file.readable(id),
        forall|id: u64| #[trigger]
            c3.nodes_file.readable(id) && id != n && id != x && id != p ==> c4.node(id).is_deleted
                == c3.node(id).is_deleted,
        !c4.node(n).is_deleted,
        !c4.node(p).is_deleted,
        c5.nodes_file == c4.nodes_file,
        forall|id: u64| #[trigger] c5.in_tree(id) <==> (c4.in_tree(id) || id == n || (new_root && id == p)),
    ensures
        spec_store_frame(a, c5),
{
    assert(!a.in_tree(n));
    assert(spec_outside(c1, n));
    assert(spec_outside(c2, n));
    if new_root {
        assert(!a.in_tree(p));
        assert(spec_outside(c2, p));
    }
    lemma_frame_trans(a, c1, c2);
    lemma_frame_trans(a, c2, c3);
    assert(spec_store_frame(c3, c4)) by {
        assert forall|id: u64| #[trigger] spec_outside(c3, id) implies c4.nodes_file.readable(id)
            && c4.node(id).is_deleted == c3.node(id).is_deleted by {
            if id == n || id == p {
            } else {
                assert(id != x);
            }
        }
    }
    lemma_frame_trans(a, c3, c4);
    lemma_frame_grow(a, c4, c5);
}

} // verus!

verus! {

/// Node `c` is a neighbour of node `id` among the children of `p`: right
/// before or right after it.
pub open spec fn spec_neighbour(v: TreeView, p: u64, id: u64, c: u64) -> bool {
    let ch = v.nodes[p].children;
    exists|j: int|
        #![trigger ch[j]]
        0 <= j < ch.len() && ch[j] == Some(c) && ((j + 1 < ch.len() && ch[j + 1] == Some(id)) || (j > 0
            && ch[j - 1] == Some(id)))
}

/// Law: a node that is not the root evens out whenever one of its
/// neighbours can take part: after an insertion, one with fewer than
/// `2 * order` records; after a deletion, one with more than `order`.
pub proof fn lemma_partner_exists(v: TreeView, id: u64, c: u64, insertion: bool)
    requires
        v.wf_except(id),
        v.in_tree(id),
        !v.is_root(id),
        spec_neighbour(v, v.nodes[id].parent_node_id->0, id, c),
        insertion ==> v.nodes[c].keys.len() < 2 * v.order,
        !insertion ==> v.nodes[c].keys.len() > v.order,
    ensures
        spec_partner(v, id, insertion) is Ok,
{
    assert(v.shape_ok(id));
    let p = v.nodes[id].parent_node_id->0;
    let ch = v.nodes[p].children;
    assert(v.shape_ok(p));
    let r = choose|r: int| 0 <= r < ch.len() && ch[r] == Some(id) && forall|j: int| 0 <= j < r ==> ch[j] != Some(id);
    assert(exists|r: int| 0 <= r < ch.len() && ch[r] == Some(id) && forall|j: int| 0 <= j < r ==> ch[j] != Some(id)) by {
        let j0 = choose|j: int| 0 <= j < ch.len() && ch[j] == Some(id);
        assert(ch[j0] == Some(id));
        assert forall|j: int| 0 <= j < j0 implies ch[j] != Some(id) by {
            assert(v.nodes[p].children[j0] == Some(id));
        }
    }
    lemma_position(ch, id, r);
    let j = choose|j: int|
        #![trigger ch[j]]
        0 <= j < ch.len() && ch[j] == Some(c) && ((j + 1 < ch.len() && ch[j + 1] == Some(id)) || (j > 0
            && ch[j - 1] == Some(id)));
    assert(j == r - 1 || j == r + 1) by {
        if j + 1 < ch.len() && ch[j + 1] == Some(id) {
            if j + 1 != r {
                assert(spec_children_distinct(ch));
                if j + 1 < r {
                    assert(ch[j + 1] != Some(id));
                } else {
                    assert(ch[r] == ch[j + 1]);
                }
            }
        } else {
            if j - 1 != r {
                assert(spec_children_distinct(ch));
                if j - 1 < r {
                    assert(ch[j - 1] != Some(id));
                } else {
                    assert(ch[r] == ch[j - 1]);
                }
            }
        }
    }
}

/// Law: inserting a record whose leaf overflows, while a neighbour of that
/// leaf has room, evens the two out: the tree keeps its nodes, their
/// heights and its root, so no node is added and the height is unchanged.
pub proof fn lemma_insert_compensates(v: TreeView, w: TreeView, r: Record, next: u64, c: u64)
    requires
        v.wf(),
        v.root is Some,
        spec_search(v, v.root->0, r.key) is Err,
        ({
            let l = spec_search(v, v.root->0, r.key)->Err_0.1;
            &&& spec_basic_insert(v.nodes[l], r, None, None).keys.len() > 2 * v.order
            &&& !v.is_root(l)
            &&& c != l
            &&& spec_neighbour(v, v.nodes[l].parent_node_id->0, l, c)
            &&& v.nodes[c].keys.len() < 2 * v.order
        }),
        spec_insert_layout(v, w, r, next),
    ensures
        w.heights == v.heights,
        w.root == v.root,
        w.tree_height() == v.tree_height(),
{
    let root = v.root->0;
    assert(v.in_tree(root));
    lemma_search_ends(v, root, r.key);
    let l = spec_search(v, root, r.key)->Err_0.1;
    let n2 = spec_basic_insert(v.nodes[l], r, None, None);
    let v2 = spec_view_with(v, l, n2);
    assert(v.shape_ok(l) && v.size_ok(l));
    assert(v.height(l) == 0);
    assert forall|i: int| 0 <= i < v.nodes[l].children.len() implies #[trigger] v.nodes[l].children[i] is None by {}
    lemma_leaf_insert_wf(v, l, r);
    let p = v.nodes[l].parent_node_id->0;
    assert(v2.nodes[l].parent_node_id == v.nodes[l].parent_node_id);
    assert(p != l) by {
        assert(v.in_tree(p));
        lemma_children_parent(v, l, p, l);
    }
    assert(v2.nodes[p] == v.nodes[p]);
    assert(v2.nodes[c] == v.nodes[c]);
    assert(spec_neighbour(v2, p, l, c)) by {
        let ch = v.nodes[p].children;
        let j = choose|j: int|
            #![trigger ch[j]]
            0 <= j < ch.len() && ch[j] == Some(c) && ((j + 1 < ch.len() && ch[j + 1] == Some(l)) || (j > 0
                && ch[j - 1] == Some(l)));
        assert(v2.nodes[p].children[j] == Some(c));
    }
    lemma_partner_exists(v2, l, c, true);
    let (pp, k, s) = spec_partner(v2, l, true)->Ok_0;
}

} // verus!
