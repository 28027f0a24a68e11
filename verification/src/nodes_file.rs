use vstd::prelude::*;
use std::collections::HashMap;

use crate::node::{
    Node, NodeView, spec_byte_size, spec_bytes_readable, spec_max_keys, spec_node_bytes,
    spec_node_from_bytes, spec_normalize, spec_well_shaped, lemma_node_bytes_roundtrip,
    lemma_node_bytes_len,
};

verus! {

broadcast use vstd::std_specs::hash::group_hash_axioms;

/// `n` zero bytes.
pub open spec fn spec_zeros(n: nat) -> Seq<u8> {
    Seq::new(n, |i: int| 0u8)
}

/// `s` extended with zero bytes to at least `n` bytes.
pub open spec fn spec_extend_zeros(s: Seq<u8>, n: nat) -> Seq<u8> {
    if s.len() >= n {
        s
    } else {
        s + spec_zeros((n - s.len()) as nat)
    }
}

/// A file cut into pages of `sz` bytes: every page full but the last,
/// which may be short.
pub open spec fn spec_pages_wf(pages: Seq<Seq<u8>>, sz: nat) -> bool {
    forall|i: int|
        0 <= i < pages.len() ==> (#[trigger] pages[i]).len() <= sz && (i + 1 < pages.len()
            ==> pages[i].len() == sz)
}

/// The file after writing `bytes` at page `id`: a short last page is
/// completed with zeros and the pages between the old end and `id` are zeros.
pub open spec fn spec_write_page(pages: Seq<Seq<u8>>, id: int, bytes: Seq<u8>, sz: nat) -> Seq<
    Seq<u8>,
> {
    if id < pages.len() {
        pages.update(id, bytes)
    } else {
        Seq::new(
            (id + 1) as nat,
            |i: int|
                if i < pages.len() {
                    spec_extend_zeros(pages[i], sz)
                } else if i < id {
                    spec_zeros(sz)
                } else {
                    bytes
                },
        )
    }
}

/// `new` is `old` after the nodes of `cache` with ids in `written` were
/// written to their pages, in any order.
pub open spec fn spec_flush_result(
    old: Seq<Seq<u8>>,
    new: Seq<Seq<u8>>,
    written: Set<u64>,
    cache: Map<u64, Node>,
    order: nat,
) -> bool {
    &&& old.len() <= new.len()
    &&& forall|id: u64| #[trigger] written.contains(id) ==> id < new.len()
    &&& (new.len() == old.len() || exists|id: u64| #[trigger]
        written.contains(id) && new.len() == id + 1)
    &&& forall|i: int|
        0 <= i < new.len() ==> #[trigger] new[i] == (if i <= u64::MAX && written.contains(
            i as u64,
        ) {
            spec_node_bytes(cache[i as u64]@, order)
        } else if i < old.len() {
            if i + 1 < new.len() {
                spec_extend_zeros(old[i], spec_byte_size(order))
            } else {
                old[i]
            }
        } else {
            spec_zeros(spec_byte_size(order))
        })
}

proof fn lemma_flush_step(
    old: Seq<Seq<u8>>,
    cur: Seq<Seq<u8>>,
    written: Set<u64>,
    cache: Map<u64, Node>,
    order: nat,
    id: u64,
)
    requires
        spec_flush_result(old, cur, written, cache, order),
        spec_pages_wf(old, spec_byte_size(order)),
        !written.contains(id),
        cache.contains_key(id),
    ensures
        spec_flush_result(
            old,
            spec_write_page(
                cur,
                id as int,
                spec_node_bytes(cache[id]@, order),
                spec_byte_size(order),
            ),
            written.insert(id),
            cache,
            order,
        ),
{
    let sz = spec_byte_size(order);
    let b = spec_node_bytes(cache[id]@, order);
    lemma_node_bytes_len(cache[id]@, order);
    let new = spec_write_page(cur, id as int, b, sz);
    let w2 = written.insert(id);
    assert forall|i: int| 0 <= i < new.len() implies #[trigger] new[i] == (if i <= u64::MAX
        && w2.contains(i as u64) {
        spec_node_bytes(cache[i as u64]@, order)
    } else if i < old.len() {
        if i + 1 < new.len() {
            spec_extend_zeros(old[i], sz)
        } else {
            old[i]
        }
    } else {
        spec_zeros(sz)
    }) by {
        if i < cur.len() {
            let ci = cur[i];
            if i <= u64::MAX && written.contains(i as u64) {
                lemma_node_bytes_len(cache[i as u64]@, order);
            }
            if i < old.len() && !(i <= u64::MAX && written.contains(i as u64)) && i + 1 < cur.len() {
                assert(old[i].len() <= sz);
                if old[i].len() < sz {
                    assert(spec_extend_zeros(spec_extend_zeros(old[i], sz), sz) == spec_extend_zeros(old[i], sz));
                }
            }
            if !(i < old.len()) && !(i <= u64::MAX && written.contains(i as u64)) {
                assert(spec_extend_zeros(spec_zeros(sz), sz) == spec_zeros(sz));
            }
        }
    }
    assert forall|x: u64| #[trigger] w2.contains(x) implies x < new.len() by {
        if x != id {
            assert(written.contains(x));
        }
    }
    assert(old.len() <= new.len());
    if new.len() != old.len() {
        if (id as int) < cur.len() {
            assert(new.len() == cur.len());
            assert(cur.len() != old.len());
            let w = choose|w: u64| #[trigger] written.contains(w) && cur.len() == w + 1;
            assert(w2.contains(w) && new.len() == w + 1);
        } else {
            assert(w2.contains(id) && new.len() == id + 1);
        }
    }
}

/// A node as read back: unchanged, or in its page shape.
pub open spec fn spec_entry_kept(old: NodeView, new: NodeView) -> bool {
    new == old || new == spec_normalize(old)
}

/// The node store: pages of a file, each holding one node at the offset
/// `id * node_byte_size`, with a cache of nodes not yet written.
pub struct NodesFile {
    /// The file, page by page.
    pub pages: Vec<Vec<u8>>,
    pub next_id: u64,
    pub order: usize,
    pub node_byte_size: usize,
    pub node_buffer: Vec<u8>,
    pub cache: HashMap<u64, Node>,
    pub cache_size: usize,
    pub file_write_ctr: u32,
    pub file_read_ctr: u32,
    /// How many times a full cache was written out.
    pub cache_flush_ctr: u32,
}

fn copy_bytes(v: &Vec<u8>) -> (r: Vec<u8>)
    ensures
        r@ == v@,
{
    let mut r: Vec<u8> = Vec::with_capacity(v.len());
    let mut i: usize = 0;
    while i < v.len()
        invariant
            i <= v@.len(),
            r@ == v@.subrange(0, i as int),
        decreases v@.len() - i,
    {
        r.push(v[i]);
        i = i + 1;
    }
    assert(r@ =~= v@);
    r
}

fn zero_page(sz: usize) -> (r: Vec<u8>)
    ensures
        r@ == spec_zeros(sz as nat),
{
    let mut r: Vec<u8> = Vec::with_capacity(sz);
    while r.len() < sz
        invariant
            r@.len() <= sz,
            r@ == spec_zeros(r@.len()),
        decreases sz - r@.len(),
    {
        r.push(0);
    }
    r
}

/// The page image of a vector of pages.
pub open spec fn spec_image(pages: Seq<Vec<u8>>) -> Seq<Seq<u8>> {
    pages.map_values(|v: Vec<u8>| v@)
}

/// Writes `bytes` as page `id` of the file.
fn write_page(pages: &mut Vec<Vec<u8>>, id: u64, bytes: Vec<u8>, sz: usize)
    requires
        id < usize::MAX,
        bytes@.len() == sz,
        spec_pages_wf(spec_image(old(pages)@), sz as nat),
    ensures
        spec_image(final(pages)@) == spec_write_page(
            spec_image(old(pages)@),
            id as int,
            bytes@,
            sz as nat,
        ),
        spec_pages_wf(spec_image(final(pages)@), sz as nat),
{
    let ghost old_img = spec_image(pages@);
    let ghost target = spec_write_page(old_img, id as int, bytes@, sz as nat);
    let idx = id as usize;
    if idx < pages.len() {
        pages.set(idx, bytes);
        assert(spec_image(pages@) =~= target);
    } else {
        let n = pages.len();
        if n > 0 {
            let mut last = pages.pop().unwrap();
            assert(last@ == old_img[n - 1]);
            assert(old_img[n - 1].len() <= sz);
            assert(last@ =~= spec_extend_zeros(old_img[n - 1], last@.len()));
            while last.len() < sz
                invariant
                    last@.len() <= sz,
                    old_img[n - 1].len() <= last@.len(),
                    last@ =~= spec_extend_zeros(old_img[n - 1], last@.len()),
                decreases sz - last@.len(),
            {
                last.push(0);
                proof {
                    assert(last@ =~= spec_extend_zeros(old_img[n - 1], last@.len()));
                }
            }
            assert(last@ =~= spec_extend_zeros(old_img[n - 1], sz as nat));
            pages.push(last);
        }
        assert forall|i: int| 0 <= i < pages@.len() implies (#[trigger] pages@[i])@
            == spec_extend_zeros(old_img[i], sz as nat) by {
            if i + 1 < n {
                assert(old_img[i].len() == sz);
                assert(spec_extend_zeros(old_img[i], sz as nat) =~= old_img[i]);
            }
        }
        while pages.len() < idx
            invariant
                n <= pages@.len() <= idx,
                pages@.len() >= 1 || n == 0,
                forall|i: int|
                    0 <= i < pages@.len() ==> (#[trigger] pages@[i])@ == (if i < n {
                        spec_extend_zeros(old_img[i], sz as nat)
                    } else {
                        spec_zeros(sz as nat)
                    }),
            decreases idx - pages@.len(),
        {
            let z = zero_page(sz);
            pages.push(z);
        }
        pages.push(bytes);
        assert(spec_image(pages@) =~= target);
    }
    proof {
        let img = spec_image(pages@);
        assert forall|i: int| 0 <= i < img.len() implies (#[trigger] img[i]).len() <= sz && (i + 1
            < img.len() ==> img[i].len() == sz) by {
            if i < old_img.len() {
                assert(old_img[i].len() <= sz);
            }
        }
    }
}

/// Every node that `old` could fetch, `new` can fetch too, unchanged or in
/// its page shape.
pub open spec fn spec_store_kept(old: &NodesFile, new: &NodesFile) -> bool {
    forall|id: u64| #[trigger]
        old.readable(id) ==> new.readable(id) && spec_entry_kept(old.entry(id), new.entry(id))
}

/// `new` is the cache `old` with node `n` put in.
pub open spec fn spec_cache_put(old: Map<u64, Node>, new: Map<u64, Node>, n: NodeView) -> bool {
    &&& new.dom() == old.dom().insert(n.id)
    &&& new[n.id]@ == n
    &&& forall|k: u64| #[trigger] old.contains_key(k) && k != n.id ==> new[k] == old[k]
}

impl NodesFile {
    /// The file as a sequence of pages.
    pub open spec fn page_image(&self) -> Seq<Seq<u8>> {
        spec_image(self.pages@)
    }

    /// The bytes of page `id`.
    pub open spec fn slot(&self, id: u64) -> Seq<u8> {
        self.page_image()[id as int]
    }

    /// Node `id` can be fetched: it is cached, or its page is complete and
    /// readable.
    pub open spec fn readable(&self, id: u64) -> bool {
        ||| self.cache@.contains_key(id)
        ||| (id < self.pages@.len() && self.slot(id).len() == self.node_byte_size
            && spec_bytes_readable(self.slot(id), self.order as nat) && spec_node_from_bytes(
            self.slot(id),
            self.order as nat,
        ).id == id && id < usize::MAX)
    }

    /// Node `id` as fetching it gives it.
    pub open spec fn entry(&self, id: u64) -> NodeView {
        if self.cache@.contains_key(id) {
            self.cache@[id]@
        } else {
            spec_node_from_bytes(self.slot(id), self.order as nat)
        }
    }

    /// The store's own invariant.
    pub open spec fn wf(&self) -> bool {
        &&& spec_byte_size(self.order as nat) <= usize::MAX
        &&& self.node_byte_size == spec_byte_size(self.order as nat)
        &&& self.node_buffer@.len() == self.node_byte_size
        &&& spec_pages_wf(self.page_image(), self.node_byte_size as nat)
        &&& forall|id: u64| #[trigger]
            self.cache@.contains_key(id) ==> self.cache@[id]@.id == id && id < usize::MAX
                && self.cache@[id]@.keys.len() <= spec_max_keys(self.order as nat)
                && self.cache@[id]@.children.len() <= spec_max_keys(self.order as nat) + 1
    }

    pub fn new(pages: Vec<Vec<u8>>, order: usize, cache_size: usize) -> (f: Self)
        requires
            spec_byte_size(order as nat) <= usize::MAX,
            spec_pages_wf(spec_image(pages@), spec_byte_size(order as nat)),
        ensures
            f.wf(),
            f.pages@ == pages@,
            f.next_id == 0,
            f.order == order,
            f.cache@.is_empty(),
            f.cache_size == cache_size,
            f.file_write_ctr == 0,
            f.file_read_ctr == 0,
    {
        let node_byte_size = Node::byte_size(order);
        Self {
            pages,
            next_id: 0,
            order,
            node_byte_size,
            node_buffer: zero_page(node_byte_size),
            cache: HashMap::new(),
            cache_size,
            file_write_ctr: 0,
            file_read_ctr: 0,
            cache_flush_ctr: 0,
        }
    }

    /// Writes every cached node to its page and empties the cache.
    pub fn write_cache(&mut self)
        requires
            old(self).wf(),
        ensures
            final(self).wf(),
            final(self).cache@.is_empty(),
            spec_flush_result(
                old(self).page_image(),
                final(self).page_image(),
                old(self).cache@.dom(),
                old(self).cache@,
                old(self).order as nat,
            ),
            final(self).next_id == old(self).next_id,
            final(self).order == old(self).order,
            final(self).cache_size == old(self).cache_size,
            final(self).file_read_ctr == old(self).file_read_ctr,
            final(self).cache_flush_ctr == old(self).cache_flush_ctr,
            final(self).file_write_ctr == (old(self).file_write_ctr + old(self).cache@.len())
                % 0x1_0000_0000,
    {
        let ghost old_img = self.page_image();
        let ghost cache_map = self.cache@;
        let ghost old_ctr = self.file_write_ctr;
        let ghost mut written: Set<u64> = Set::empty();
        let order = self.order;
        let sz = self.node_byte_size;
        for (k, node) in it: self.cache.iter()
            invariant
                self.cache@ == cache_map,
                order == self.order,
                self.next_id == old(self).next_id,
                self.cache_size == old(self).cache_size,
                self.file_read_ctr == old(self).file_read_ctr,
                self.cache_flush_ctr == old(self).cache_flush_ctr,
                sz == self.node_byte_size,
                sz == spec_byte_size(order as nat),
                spec_byte_size(order as nat) <= usize::MAX,
                self.node_buffer@.len() == sz,
                spec_pages_wf(self.page_image(), sz as nat),
                forall|id: u64| #[trigger]
                    cache_map.contains_key(id) ==> cache_map[id]@.id == id && id < usize::MAX
                        && cache_map[id]@.keys.len() <= spec_max_keys(order as nat)
                        && cache_map[id]@.children.len() <= spec_max_keys(order as nat) + 1,
                it.seq().len() == cache_map.dom().len(),
                forall|key: u64| #[trigger]
                    cache_map.contains_key(key) ==> it.seq().contains((&key, &cache_map[key])),
                spec_pages_wf(old_img, sz as nat),
                forall|j: int|
                    0 <= j < it.seq().len() ==> cache_map.contains_key(*(#[trigger] it.seq()[j]).0)
                        && cache_map[*it.seq()[j].0] == *it.seq()[j].1,
                it.seq().no_duplicates(),
                forall|id: u64|
                    #[trigger] written.contains(id) <==> exists|j: int|
                        0 <= j < it.index() && *(#[trigger] it.seq()[j]).0 == id,
                spec_flush_result(old_img, self.page_image(), written, cache_map, order as nat),
                self.file_write_ctr == (old_ctr + it.index()) % 0x1_0000_0000,
        {
            let ghost j = it.index() as int;
            assert(*k == *it.seq()[j].0);
            assert(*node == *it.seq()[j].1);
            let id = node.id;
            assert(id == *k);
            assert(!written.contains(id)) by {
                if written.contains(id) {
                    let j2 = choose|j2: int| 0 <= j2 < it.index() && *(#[trigger] it.seq()[j2]).0 == id;
                    assert(it.seq()[j2] == it.seq()[j]);
                }
            }
            let bytes = node.to_bytes(order);
            proof {
                lemma_node_bytes_len(node@, order as nat);
                lemma_flush_step(old_img, self.page_image(), written, cache_map, order as nat, id);
            }
            let copy = copy_bytes(&bytes);
            write_page(&mut self.pages, id, copy, sz);
            self.node_buffer = bytes;
            self.file_write_ctr = self.file_write_ctr.wrapping_add(1);
            proof {
                written = written.insert(id);
            }
        }
        assert(written =~= cache_map.dom());
        self.cache.clear();
        proof {
            Self::lemma_flush_entries(old(self), self);
        }
    }

    /// After a flush, each cached node reads back in its page shape and every
    /// other readable node reads back as before.
    pub proof fn lemma_flush_entries(old: &NodesFile, new: &NodesFile)
        requires
            old.wf(),
            new.cache@.is_empty(),
            new.order == old.order,
            new.node_byte_size == old.node_byte_size,
            spec_flush_result(
                old.page_image(),
                new.page_image(),
                old.cache@.dom(),
                old.cache@,
                old.order as nat,
            ),
        ensures
            spec_store_kept(old, new),
            forall|id: u64| #[trigger]
                old.cache@.contains_key(id) ==> new.readable(id) && new.entry(id) == spec_normalize(
                    old.cache@[id]@,
                ),
    {
        let order = old.order as nat;
        let sz = old.node_byte_size as nat;
        assert forall|id: u64| #[trigger] old.cache@.contains_key(id) implies new.readable(id)
            && new.entry(id) == spec_normalize(old.cache@[id]@) by {
            let n = old.cache@[id]@;
            lemma_node_bytes_roundtrip(n, order);
            assert(new.slot(id) == spec_node_bytes(n, order));
        }
        assert forall|id: u64| #[trigger] old.readable(id) implies new.readable(id)
            && spec_entry_kept(old.entry(id), new.entry(id)) by {
            if old.cache@.contains_key(id) {
                let n = old.cache@[id]@;
                lemma_node_bytes_roundtrip(n, order);
                assert(new.slot(id) == spec_node_bytes(n, order));
            } else {
                let s = old.slot(id);
                assert(s.len() == sz);
                assert(spec_extend_zeros(s, sz) =~= s);
                assert(new.slot(id) == s);
            }
        }
    }

    /// Puts a node in the cache; a cache that reaches its size is written out.
    pub fn add_to_cache(&mut self, node: &Node)
        requires
            old(self).wf(),
            node@.id < usize::MAX,
            node@.keys.len() <= spec_max_keys(old(self).order as nat),
            node@.children.len() <= spec_max_keys(old(self).order as nat) + 1,
        ensures
            final(self).wf(),
            final(self).next_id == old(self).next_id,
            final(self).order == old(self).order,
            final(self).cache_size == old(self).cache_size,
            final(self).file_read_ctr == old(self).file_read_ctr,
            old(self).cache@.dom().insert(node.id).len() < old(self).cache_size ==> {
                &&& spec_cache_put(old(self).cache@, final(self).cache@, node@)
                &&& final(self).pages@ == old(self).pages@
                &&& final(self).file_write_ctr == old(self).file_write_ctr
                &&& final(self).cache_flush_ctr == old(self).cache_flush_ctr
            },
            old(self).cache@.dom().insert(node.id).len() >= old(self).cache_size ==> {
                &&& final(self).cache@.is_empty()
                &&& final(self).cache_flush_ctr == old(self).cache_flush_ctr.wrapping_add(1)
                &&& exists|c: Map<u64, Node>|
                    spec_cache_put(old(self).cache@, c, node@) && spec_flush_result(
                        old(self).page_image(),
                        final(self).page_image(),
                        c.dom(),
                        c,
                        old(self).order as nat,
                    ) && final(self).file_write_ctr == (old(self).file_write_ctr + c.len())
                        % 0x1_0000_0000
            },
            final(self).readable(node.id),
            spec_entry_kept(node@, final(self).entry(node.id)),
            forall|id: u64| #[trigger]
                old(self).readable(id) && id != node.id ==> final(self).readable(id)
                    && spec_entry_kept(old(self).entry(id), final(self).entry(id)),
    {
        let copy = node.clone();
        self.cache.insert(node.id, copy);
        let ghost mid = *self;
        assert(spec_cache_put(old(self).cache@, self.cache@, node@));
        assert(self.cache@.dom() =~= old(self).cache@.dom().insert(node.id));
        if self.cache.len() >= self.cache_size {
            self.cache_flush_ctr = self.cache_flush_ctr.wrapping_add(1);
            self.write_cache();
            proof {
                Self::lemma_flush_entries(&mid, self);
                assert(mid.cache@.contains_key(node.id));
                assert forall|id: u64| #[trigger]
                    old(self).readable(id) && id != node.id implies self.readable(id)
                    && spec_entry_kept(old(self).entry(id), self.entry(id)) by {
                    assert(mid.readable(id));
                    assert(mid.entry(id) == old(self).entry(id));
                }
            }
        } else {
            assert forall|id: u64| #[trigger]
                old(self).readable(id) && id != node.id implies self.readable(id)
                && spec_entry_kept(old(self).entry(id), self.entry(id)) by {
                assert(self.entry(id) == old(self).entry(id));
            }
        }
    }

    /// The node with id `id`, from the cache or else read from its page (and
    /// then cached).
    pub fn get_node(&mut self, id: u64) -> (n: Node)
        requires
            old(self).wf(),
            old(self).readable(id),
        ensures
            final(self).wf(),
            n@ == old(self).entry(id),
            old(self).cache@.contains_key(id) ==> *final(self) == *old(self),
            !old(self).cache@.contains_key(id) ==> final(self).file_read_ctr
                == old(self).file_read_ctr.wrapping_add(1),
            final(self).next_id == old(self).next_id,
            final(self).order == old(self).order,
            final(self).cache_size == old(self).cache_size,
            spec_store_kept(old(self), final(self)),
    {
        match self.cache.get(&id) {
            Some(n) => n.clone(),
            None => {
                assert(!self.cache@.contains_key(id));
                assert(id < self.pages@.len());
                self.file_read_ctr = self.file_read_ctr.wrapping_add(1);
                let np = self.pages.len();
                assert(id < np);
                let idx = id as usize;
                let page = copy_bytes(&self.pages[idx]);
                assert(page@ == self.slot(id));
                self.node_buffer = page;
                let node = Node::from_bytes(self.node_buffer.as_slice(), self.order);
                proof {
                    lemma_decoded_shape(self.slot(id), self.order as nat);
                }
                let ghost mid = *self;
                self.add_to_cache(&node);
                proof {
                    assert forall|x: u64| #[trigger] old(self).readable(x) implies self.readable(x)
                        && spec_entry_kept(old(self).entry(x), self.entry(x)) by {
                        assert(mid.readable(x));
                        assert(mid.entry(x) == old(self).entry(x));
                    }
                }
                node
            },
        }
    }

    /// Replaces the stored node with the same id.
    pub fn update_node(&mut self, node: &Node)
        requires
            old(self).wf(),
            node@.id < usize::MAX,
            node@.keys.len() <= spec_max_keys(old(self).order as nat),
            node@.children.len() <= spec_max_keys(old(self).order as nat) + 1,
        ensures
            final(self).wf(),
            final(self).next_id == old(self).next_id,
            final(self).order == old(self).order,
            final(self).cache_size == old(self).cache_size,
            final(self).file_read_ctr == old(self).file_read_ctr,
            final(self).readable(node.id),
            spec_entry_kept(node@, final(self).entry(node.id)),
            forall|id: u64| #[trigger]
                old(self).readable(id) && id != node.id ==> final(self).readable(id)
                    && spec_entry_kept(old(self).entry(id), final(self).entry(id)),
    {
        self.add_to_cache(node);
    }

    /// Stores a new node and counts it.
    pub fn create_node(&mut self, node: &Node)
        requires
            old(self).wf(),
            old(self).next_id < u64::MAX,
            node@.id < usize::MAX,
            node@.keys.len() <= spec_max_keys(old(self).order as nat),
            node@.children.len() <= spec_max_keys(old(self).order as nat) + 1,
        ensures
            final(self).wf(),
            final(self).next_id == old(self).next_id + 1,
            final(self).order == old(self).order,
            final(self).cache_size == old(self).cache_size,
            final(self).file_read_ctr == old(self).file_read_ctr,
            final(self).readable(node.id),
            spec_entry_kept(node@, final(self).entry(node.id)),
            forall|id: u64| #[trigger]
                old(self).readable(id) && id != node.id ==> final(self).readable(id)
                    && spec_entry_kept(old(self).entry(id), final(self).entry(id)),
    {
        self.add_to_cache(node);
        self.next_id = self.next_id + 1;
    }
}

/// A node read from a page is in page shape and within the page's room.
pub proof fn lemma_decoded_shape(b: Seq<u8>, order: nat)
    requires
        spec_bytes_readable(b, order),
        b.len() == spec_byte_size(order),
    ensures
        spec_well_shaped(spec_node_from_bytes(b, order)),
        spec_normalize(spec_node_from_bytes(b, order)) == spec_node_from_bytes(b, order),
        spec_node_from_bytes(b, order).keys.len() <= spec_max_keys(order),
        spec_node_from_bytes(b, order).children.len() <= spec_max_keys(order) + 1,
{
    let n = spec_node_from_bytes(b, order);
    assert(n.children =~= spec_normalize(n).children);
}

} // verus!
