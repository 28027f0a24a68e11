use vstd::prelude::*;

use crate::btree::{TreeView, spec_bsearch, spec_search, spec_child, spec_sorted, lemma_bsearch_range, lemma_bsearch_sorted};
use crate::record::Record;

verus! {

/// The records under node `id` in order, from its child `j` on: that
/// child's records, then record `j`, and so on to the last child.
pub open spec fn spec_inorder_from(v: TreeView, id: u64, j: int) -> Seq<Record>
    decreases v.height(id), v.nodes[id].keys.len() - j,
{
    let n = v.nodes[id];
    let kid = if 0 <= j < n.children.len() {
        match n.children[j] {
            Some(c) => if v.in_tree(c) && v.height(c) < v.height(id) {
                spec_inorder_from(v, c, 0)
            } else {
                Seq::empty()
            },
            None => Seq::empty(),
        }
    } else {
        Seq::empty()
    };
    if 0 <= j < n.keys.len() {
        kid + seq![n.keys[j]] + spec_inorder_from(v, id, j + 1)
    } else {
        kid
    }
}

/// The records of the subtree of node `id`, in order.
pub open spec fn spec_inorder(v: TreeView, id: u64) -> Seq<Record> {
    spec_inorder_from(v, id, 0)
}

/// The records of the subtree of child `j` of node `id`.
pub open spec fn spec_kid(v: TreeView, id: u64, j: int) -> Seq<Record> {
    let n = v.nodes[id];
    if 0 <= j < n.children.len() {
        match n.children[j] {
            Some(c) => if v.in_tree(c) && v.height(c) < v.height(id) {
                spec_inorder(v, c)
            } else {
                Seq::empty()
            },
            None => Seq::empty(),
        }
    } else {
        Seq::empty()
    }
}

/// The records of the subtrees of the children of node `id`.
pub open spec fn spec_kids(v: TreeView, id: u64) -> Seq<Seq<Record>> {
    Seq::new(v.nodes[id].children.len(), |j: int| spec_kid(v, id, j))
}

/// Keys and the record sequences between them, woven together from
/// position `j` on: `kids[j]`, `keys[j]`, `kids[j + 1]`, ...
pub open spec fn spec_weave(keys: Seq<Record>, kids: Seq<Seq<Record>>, j: int) -> Seq<Record>
    decreases keys.len() - j,
{
    let kid = if 0 <= j < kids.len() {
        kids[j]
    } else {
        Seq::empty()
    };
    if 0 <= j < keys.len() {
        kid + seq![keys[j]] + spec_weave(keys, kids, j + 1)
    } else {
        kid
    }
}

/// The records of the whole tree, in order.
pub open spec fn spec_records(v: TreeView) -> Seq<Record> {
    match v.root {
        Some(r) => spec_inorder(v, r),
        None => Seq::empty(),
    }
}

/// The tree's records are strictly increasing by key.
pub open spec fn spec_ordered(v: TreeView) -> bool {
    spec_sorted(spec_records(v))
}

/// Some record of `s` has key `k`.
pub open spec fn spec_has_key(s: Seq<Record>, k: u64) -> bool {
    exists|i: int| 0 <= i < s.len() && #[trigger] s[i].key == k
}

/// The records under a node are its keys woven with its children's records.
pub proof fn lemma_inorder_weave(v: TreeView, id: u64, j: int)
    requires
        0 <= j,
    ensures
        spec_inorder_from(v, id, j) == spec_weave(v.nodes[id].keys, spec_kids(v, id), j),
    decreases v.nodes[id].keys.len() - j,
{
    let n = v.nodes[id];
    if 0 <= j < n.keys.len() {
        lemma_inorder_weave(v, id, j + 1);
    }
    if 0 <= j < n.children.len() {
        assert(spec_kids(v, id)[j] == spec_kid(v, id, j));
    }
}

/// Weaving past the first `d` keys and sequences is weaving their rests.
pub proof fn lemma_weave_shift(keys: Seq<Record>, kids: Seq<Seq<Record>>, d: int, i: int)
    requires
        0 <= d,
        0 <= i,
        d + i <= keys.len(),
        kids.len() == keys.len() + 1,
    ensures
        spec_weave(keys, kids, d + i) == spec_weave(
            keys.subrange(d, keys.len() as int),
            kids.subrange(d, kids.len() as int),
            i,
        ),
    decreases keys.len() - d - i,
{
    if d + i < keys.len() {
        lemma_weave_shift(keys, kids, d, i + 1);
    }
}

/// Weaving a concatenation: `keys1`, `k`, `keys2` with the sequences of both.
pub proof fn lemma_weave_concat(
    keys1: Seq<Record>,
    k: Record,
    keys2: Seq<Record>,
    kids1: Seq<Seq<Record>>,
    kids2: Seq<Seq<Record>>,
    j: int,
)
    requires
        kids1.len() == keys1.len() + 1,
        kids2.len() == keys2.len() + 1,
        0 <= j <= keys1.len(),
    ensures
        spec_weave(keys1 + seq![k] + keys2, kids1 + kids2, j) == spec_weave(keys1, kids1, j) + seq![k]
            + spec_weave(keys2, kids2, 0),
    decreases keys1.len() - j,
{
    let keys = keys1 + seq![k] + keys2;
    let kids = kids1 + kids2;
    if j < keys1.len() {
        lemma_weave_concat(keys1, k, keys2, kids1, kids2, j + 1);
        assert(keys[j] == keys1[j]);
        assert(kids[j] == kids1[j]);
    } else {
        assert(keys[j] == k);
        assert(kids[j] == kids1[j]);
        lemma_weave_shift(keys, kids, keys1.len() as int + 1, 0);
        assert(keys.subrange(keys1.len() as int + 1, keys.len() as int) =~= keys2);
        assert(kids.subrange(keys1.len() as int + 1, kids.len() as int) =~= kids2);
    }
}

/// Weaving keys with empty sequences gives the keys.
pub proof fn lemma_weave_flat(keys: Seq<Record>, kids: Seq<Seq<Record>>, j: int)
    requires
        0 <= j <= keys.len(),
        forall|i: int| 0 <= i < kids.len() ==> #[trigger] kids[i] == Seq::<Record>::empty(),
    ensures
        spec_weave(keys, kids, j) == keys.subrange(j, keys.len() as int),
    decreases keys.len() - j,
{
    if j < keys.len() {
        lemma_weave_flat(keys, kids, j + 1);
        assert(keys.subrange(j, keys.len() as int) =~= seq![keys[j]] + keys.subrange(
            j + 1,
            keys.len() as int,
        ));
    } else {
        assert(keys.subrange(j, keys.len() as int) =~= Seq::<Record>::empty());
    }
}

/// Every key and every record of the sequences from position `j` on occur
/// in the weave from `j` on, and nothing else does.
pub proof fn lemma_weave_members(keys: Seq<Record>, kids: Seq<Seq<Record>>, j: int)
    requires
        kids.len() == keys.len() + 1,
        0 <= j <= keys.len(),
    ensures
        forall|i: int| j <= i < keys.len() ==> spec_weave(keys, kids, j).contains(#[trigger] keys[i]),
        forall|i: int, t: int|
            j <= i < kids.len() && 0 <= t < kids[i].len() ==> spec_weave(keys, kids, j).contains(
                #[trigger] kids[i][t],
            ),
        forall|x: Record|
            #[trigger] spec_weave(keys, kids, j).contains(x) ==> (exists|i: int|
                j <= i < keys.len() && keys[i] == x) || (exists|i: int, t: int|
                j <= i < kids.len() && 0 <= t < kids[i].len() && kids[i][t] == x),
    decreases keys.len() - j,
{
    let w = spec_weave(keys, kids, j);
    if j < keys.len() {
        lemma_weave_members(keys, kids, j + 1);
        let rest = spec_weave(keys, kids, j + 1);
        assert(w == kids[j] + seq![keys[j]] + rest);
        assert forall|i: int| j <= i < keys.len() implies w.contains(#[trigger] keys[i]) by {
            if i == j {
                assert(w[kids[j].len() as int] == keys[j]);
            } else {
                let q = choose|q: int| 0 <= q < rest.len() && rest[q] == keys[i];
                assert(w[kids[j].len() + 1 + q] == keys[i]);
            }
        }
        assert forall|i: int, t: int| j <= i < kids.len() && 0 <= t < kids[i].len() implies w.contains(
            #[trigger] kids[i][t],
        ) by {
            if i == j {
                assert(w[t] == kids[j][t]);
            } else {
                let q = choose|q: int| 0 <= q < rest.len() && rest[q] == kids[i][t];
                assert(w[kids[j].len() + 1 + q] == kids[i][t]);
            }
        }
        assert forall|x: Record| #[trigger] w.contains(x) implies (exists|i: int|
            j <= i < keys.len() && keys[i] == x) || (exists|i: int, t: int|
            j <= i < kids.len() && 0 <= t < kids[i].len() && kids[i][t] == x) by {
            let q = choose|q: int| 0 <= q < w.len() && w[q] == x;
            if q < kids[j].len() {
                assert(kids[j][q] == x);
            } else if q == kids[j].len() {
                assert(keys[j] == x);
            } else {
                assert(rest[q - kids[j].len() - 1] == x);
                assert(rest.contains(x));
            }
        }
    } else {
        assert(w == kids[j]);
        assert forall|x: Record| #[trigger] w.contains(x) implies (exists|i: int|
            j <= i < keys.len() && keys[i] == x) || (exists|i: int, t: int|
            j <= i < kids.len() && 0 <= t < kids[i].len() && kids[i][t] == x) by {
            let q = choose|q: int| 0 <= q < w.len() && w[q] == x;
            assert(kids[j][q] == x);
        }
    }
}

/// A sorted sequence: every member before another has a smaller key.
pub proof fn lemma_sorted_concat(a: Seq<Record>, b: Seq<Record>)
    requires
        spec_sorted(a + b),
    ensures
        spec_sorted(a),
        spec_sorted(b),
        forall|i: int, t: int| 0 <= i < a.len() && 0 <= t < b.len() ==> #[trigger] a[i].key < #[trigger] b[t].key,
{
    let s = a + b;
    assert forall|i: int, j: int| 0 <= i < j < a.len() implies #[trigger] a[i].key < #[trigger] a[j].key by {
        assert(s[i] == a[i] && s[j] == a[j]);
    }
    assert forall|i: int, j: int| 0 <= i < j < b.len() implies #[trigger] b[i].key < #[trigger] b[j].key by {
        assert(s[a.len() + i] == b[i] && s[a.len() + j] == b[j]);
    }
    assert forall|i: int, t: int| 0 <= i < a.len() && 0 <= t < b.len() implies #[trigger] a[i].key < #[trigger] b[t].key by {
        assert(s[i] == a[i] && s[a.len() + t] == b[t]);
    }
}

/// A sorted weave has sorted, separated parts.
pub proof fn lemma_weave_sorted(keys: Seq<Record>, kids: Seq<Seq<Record>>, j: int)
    requires
        kids.len() == keys.len() + 1,
        0 <= j <= keys.len(),
        spec_sorted(spec_weave(keys, kids, j)),
    ensures
        forall|i: int| j <= i < kids.len() ==> spec_sorted(#[trigger] kids[i]),
        forall|i: int, t: int|
            j <= i < keys.len() && 0 <= t < kids[i].len() ==> #[trigger] kids[i][t].key < keys[i].key,
        forall|i: int, t: int|
            j < i <= keys.len() && 0 <= t < kids[i].len() ==> keys[i - 1].key < #[trigger] kids[i][t].key,
        forall|i: int, i2: int| j <= i < i2 < keys.len() ==> #[trigger] keys[i].key < #[trigger] keys[i2].key,
    decreases keys.len() - j,
{
    if j < keys.len() {
        let rest = spec_weave(keys, kids, j + 1);
        let w = spec_weave(keys, kids, j);
        assert(w == kids[j] + (seq![keys[j]] + rest));
        lemma_sorted_concat(kids[j], seq![keys[j]] + rest);
        lemma_sorted_concat(seq![keys[j]], rest);
        lemma_weave_sorted(keys, kids, j + 1);
        lemma_weave_members(keys, kids, j + 1);
        assert forall|t: int| 0 <= t < kids[j].len() implies #[trigger] kids[j][t].key < keys[j].key by {
            assert((seq![keys[j]] + rest)[0] == keys[j]);
        }
        assert forall|t: int| 0 <= t < kids[j + 1].len() implies keys[j].key < #[trigger] kids[j + 1][t].key by {
            assert(rest.contains(kids[j + 1][t]));
            let q = choose|q: int| 0 <= q < rest.len() && rest[q] == kids[j + 1][t];
            assert(seq![keys[j]][0] == keys[j]);
        }
        assert forall|i2: int| j < i2 < keys.len() implies keys[j].key < #[trigger] keys[i2].key by {
            assert(rest.contains(keys[i2]));
            let q = choose|q: int| 0 <= q < rest.len() && rest[q] == keys[i2];
            assert(seq![keys[j]][0] == keys[j]);
        }
    } else {
        assert(spec_weave(keys, kids, j) == kids[j]);
    }
}

/// In a sorted weave, a key that falls between keys `i - 1` and `i` can
/// only be in sequence `i`.
pub proof fn lemma_weave_find(keys: Seq<Record>, kids: Seq<Seq<Record>>, k: u64, i: int)
    requires
        kids.len() == keys.len() + 1,
        spec_sorted(spec_weave(keys, kids, 0)),
        0 <= i <= keys.len(),
        forall|j: int| 0 <= j < i ==> #[trigger] keys[j].key < k,
        forall|j: int| i <= j < keys.len() ==> #[trigger] keys[j].key > k,
    ensures
        spec_has_key(spec_weave(keys, kids, 0), k) == spec_has_key(kids[i], k),
        forall|r: Record| #[trigger] kids[i].contains(r) ==> spec_weave(keys, kids, 0).contains(r),
{
    let w = spec_weave(keys, kids, 0);
    lemma_weave_sorted(keys, kids, 0);
    lemma_weave_members(keys, kids, 0);
    assert forall|x: Record| #[trigger] w.contains(x) && x.key == k implies kids[i].contains(x) by {
        if exists|j: int| 0 <= j < keys.len() && keys[j] == x {
            let j = choose|j: int| 0 <= j < keys.len() && keys[j] == x;
            assert(keys[j].key != k);
        } else {
            let (j, t) = choose|j: int, t: int| 0 <= j < kids.len() && 0 <= t < kids[j].len() && kids[j][t] == x;
            if j < i {
                assert(kids[j][t].key < keys[j].key);
            } else if j > i {
                assert(keys[j - 1].key < kids[j][t].key);
            } else {
                assert(kids[i][t] == x);
            }
        }
    }
    assert forall|r: Record| #[trigger] kids[i].contains(r) implies w.contains(r) by {
        let t = choose|t: int| 0 <= t < kids[i].len() && kids[i][t] == r;
        assert(w.contains(kids[i][t]));
    }
    if spec_has_key(kids[i], k) {
        let t = choose|t: int| 0 <= t < kids[i].len() && #[trigger] kids[i][t].key == k;
        assert(kids[i].contains(kids[i][t]));
        assert(w.contains(kids[i][t]));
        let q = choose|q: int| 0 <= q < w.len() && w[q] == kids[i][t];
        assert(w[q].key == k);
    }
    if spec_has_key(w, k) {
        let q = choose|q: int| 0 <= q < w.len() && #[trigger] w[q].key == k;
        assert(w.contains(w[q]));
        assert(kids[i].contains(w[q]));
        let t = choose|t: int| 0 <= t < kids[i].len() && kids[i][t] == w[q];
        assert(kids[i][t].key == k);
    }
}

/// In a well-formed tree whose records under node `id` are sorted, a search
/// from `id` finds a key exactly when a record there has it, and what it
/// finds is that record.
pub proof fn lemma_search_correct(v: TreeView, id: u64, k: u64)
    requires
        v.wf(),
        v.in_tree(id),
        spec_sorted(spec_inorder(v, id)),
    ensures
        (spec_search(v, id, k) is Ok) == spec_has_key(spec_inorder(v, id), k),
        spec_search(v, id, k) is Ok ==> spec_inorder(v, id).contains(spec_search(v, id, k)->Ok_0.0)
            && spec_search(v, id, k)->Ok_0.0.key == k,
    decreases v.height(id),
{
    let n = v.nodes[id];
    let keys = n.keys;
    let kids = spec_kids(v, id);
    assert(v.shape_ok(id));
    lemma_inorder_weave(v, id, 0);
    let w = spec_weave(keys, kids, 0);
    assert(spec_sorted(keys)) by {
        lemma_weave_sorted(keys, kids, 0);
    }
    lemma_bsearch_sorted(keys, k, 0, keys.len() as int);
    match spec_bsearch(keys, k, 0, keys.len() as int) {
        Ok(i) => {
            assert(w.contains(keys[i as int])) by {
                lemma_weave_members(keys, kids, 0);
            }
            let q = choose|q: int| 0 <= q < w.len() && w[q] == keys[i as int];
            assert(w[q].key == k);
        },
        Err(i) => {
            let i = i as int;
            lemma_weave_find(keys, kids, k, i);
            match n.children[i] {
                Some(c) => {
                    assert(spec_child(n.children, i) == c);
                    assert(v.in_tree(c) && v.height(c) < v.height(id));
                    assert(kids[i] == spec_inorder(v, c));
                    assert(spec_sorted(kids[i])) by {
                        lemma_weave_sorted(keys, kids, 0);
                    }
                    lemma_search_correct(v, c, k);
                },
                None => {
                    assert(kids[i] == Seq::<Record>::empty());
                },
            }
        },
    }
}

/// Weaving from `j` on depends only on the sequences from `j` on.
pub proof fn lemma_weave_tail(keys: Seq<Record>, kids: Seq<Seq<Record>>, kids2: Seq<Seq<Record>>, j: int)
    requires
        kids.len() == keys.len() + 1,
        kids2.len() == keys.len() + 1,
        0 <= j <= keys.len(),
        forall|t: int| j <= t < kids.len() ==> #[trigger] kids[t] == kids2[t],
    ensures
        spec_weave(keys, kids, j) == spec_weave(keys, kids2, j),
    decreases keys.len() - j,
{
    if j < keys.len() {
        lemma_weave_tail(keys, kids, kids2, j + 1);
    }
}

/// The first sequence of a weave stands in front of the rest.
pub proof fn lemma_weave_first(keys: Seq<Record>, kids: Seq<Seq<Record>>)
    requires
        kids.len() == keys.len() + 1,
    ensures
        spec_weave(keys, kids, 0) == kids[0] + spec_weave(keys, kids.update(0, Seq::empty()), 0),
{
    let kids2 = kids.update(0, Seq::<Record>::empty());
    if keys.len() > 0 {
        lemma_weave_tail(keys, kids, kids2, 1);
        assert(spec_weave(keys, kids2, 0) == Seq::<Record>::empty() + seq![keys[0]] + spec_weave(keys, kids2, 1));
    }
}

/// The last sequence of a weave stands at its end.
pub proof fn lemma_weave_last(keys: Seq<Record>, kids: Seq<Seq<Record>>, j: int)
    requires
        kids.len() == keys.len() + 1,
        0 <= j <= keys.len(),
    ensures
        spec_weave(keys, kids, j) == spec_weave(keys, kids.update(keys.len() as int, Seq::empty()), j)
            + kids[keys.len() as int],
    decreases keys.len() - j,
{
    let kids2 = kids.update(keys.len() as int, Seq::<Record>::empty());
    if j < keys.len() {
        lemma_weave_last(keys, kids, j + 1);
        assert(kids2[j] == kids[j]);
    }
}

/// A weave cut at sequence `i`: what comes before it, the sequence, and what
/// comes after it.
pub proof fn lemma_weave_kid(keys: Seq<Record>, kids: Seq<Seq<Record>>, i: int)
    requires
        kids.len() == keys.len() + 1,
        0 <= i <= keys.len(),
    ensures
        spec_weave(keys, kids, 0) == spec_weave(
            keys.subrange(0, i),
            kids.subrange(0, i).push(Seq::empty()),
            0,
        ) + kids[i] + spec_weave(
            keys.subrange(i, keys.len() as int),
            seq![Seq::<Record>::empty()] + kids.subrange(i + 1, kids.len() as int),
            0,
        ),
{
    let left = spec_weave(keys.subrange(0, i), kids.subrange(0, i).push(Seq::empty()), 0);
    let right = spec_weave(
        keys.subrange(i, keys.len() as int),
        seq![Seq::<Record>::empty()] + kids.subrange(i + 1, kids.len() as int),
        0,
    );
    if i == 0 {
        lemma_weave_first(keys, kids);
        assert(keys.subrange(0, keys.len() as int) =~= keys);
        assert(seq![Seq::<Record>::empty()] + kids.subrange(1, kids.len() as int) =~= kids.update(0, Seq::empty()));
        assert(left == Seq::<Record>::empty());
    } else {
        let k1 = keys.subrange(0, i - 1);
        let k2 = keys.subrange(i, keys.len() as int);
        let f1 = kids.subrange(0, i);
        let f2 = kids.subrange(i, kids.len() as int);
        assert(keys =~= k1 + seq![keys[i - 1]] + k2);
        assert(kids =~= f1 + f2);
        lemma_weave_concat(k1, keys[i - 1], k2, f1, f2, 0);
        lemma_weave_first(k2, f2);
        assert(f2.update(0, Seq::empty()) =~= seq![Seq::<Record>::empty()] + kids.subrange(i + 1, kids.len() as int));
        assert(keys.subrange(0, i) =~= k1 + seq![keys[i - 1]] + Seq::<Record>::empty());
        assert(kids.subrange(0, i).push(Seq::empty()) =~= f1 + seq![Seq::<Record>::empty()]);
        lemma_weave_concat(k1, keys[i - 1], Seq::<Record>::empty(), f1, seq![Seq::<Record>::empty()], 0);
        assert(spec_weave(Seq::<Record>::empty(), seq![Seq::<Record>::empty()], 0) == Seq::<Record>::empty());
    }
}

/// A weave cut around key `i`: what comes before sequence `i`, that
/// sequence, key `i` and sequence `i + 1`, and what comes after.
pub proof fn lemma_weave_segment(keys: Seq<Record>, kids: Seq<Seq<Record>>, i: int)
    requires
        kids.len() == keys.len() + 1,
        0 <= i < keys.len(),
    ensures
        spec_weave(keys, kids, 0) == spec_weave(
            keys.subrange(0, i),
            kids.subrange(0, i).push(Seq::empty()),
            0,
        ) + (kids[i] + seq![keys[i]] + kids[i + 1]) + spec_weave(
            keys.subrange(i + 1, keys.len() as int),
            seq![Seq::<Record>::empty()] + kids.subrange(i + 2, kids.len() as int),
            0,
        ),
{
    let k1 = keys.subrange(0, i);
    let k2 = keys.subrange(i + 1, keys.len() as int);
    let f1 = kids.subrange(0, i + 1);
    let f2 = kids.subrange(i + 1, kids.len() as int);
    assert(keys =~= k1 + seq![keys[i]] + k2);
    assert(kids =~= f1 + f2);
    lemma_weave_concat(k1, keys[i], k2, f1, f2, 0);
    lemma_weave_last(k1, f1, 0);
    assert(f1.update(i, Seq::empty()) =~= kids.subrange(0, i).push(Seq::empty()));
    lemma_weave_first(k2, f2);
    assert(f2.update(0, Seq::empty()) =~= seq![Seq::<Record>::empty()] + kids.subrange(i + 2, kids.len() as int));
}

/// Node `x` of `w` is node `x` of `v` as far as records go: the same keys,
/// children and height, and its children are outside `d` and in both trees
/// at the same height or in neither.
pub open spec fn spec_kept(v: TreeView, w: TreeView, x: u64, d: Set<u64>) -> bool {
    &&& v.in_tree(x)
    &&& w.nodes[x].keys == v.nodes[x].keys
    &&& w.nodes[x].children == v.nodes[x].children
    &&& w.height(x) == v.height(x)
    &&& forall|c: u64| #[trigger]
        w.nodes[x].children.contains(Some(c)) ==> !d.contains(c) && (w.in_tree(c) == v.in_tree(c)) && (
        w.in_tree(c) ==> w.height(c) == v.height(c))
}

/// Records under a node of height at most `h` stay the same when every such
/// node is kept but those of `s`, whose records are known to stay, and those
/// of `d`, which hang only below nodes of `s` or above height `h`.
pub proof fn lemma_inorder_frame(v: TreeView, w: TreeView, id: u64, d: Set<u64>, s: Set<u64>, h: nat)
    requires
        w.in_tree(id),
        !d.contains(id),
        w.height(id) <= h,
        forall|x: u64| #[trigger] w.in_tree(x) && w.height(x) <= h && s.contains(x) ==> spec_inorder(w, x)
            == spec_inorder(v, x),
        forall|x: u64| #[trigger] w.in_tree(x) && w.height(x) <= h && !s.contains(x) && !d.contains(x)
            ==> spec_kept(v, w, x, d),
    ensures
        spec_inorder(w, id) == spec_inorder(v, id),
    decreases w.height(id),
{
    if !s.contains(id) {
        assert(spec_kept(v, w, id, d));
        let n = w.nodes[id];
        assert forall|j: int| 0 <= j < n.children.len() implies #[trigger] spec_kid(w, id, j) == spec_kid(v, id, j) by {
            if let Some(c) = n.children[j] {
                assert(n.children.contains(Some(c)));
                if w.in_tree(c) && w.height(c) < w.height(id) {
                    lemma_inorder_frame(v, w, c, d, s, h);
                }
            }
        }
        lemma_inorder_weave(w, id, 0);
        lemma_inorder_weave(v, id, 0);
        assert(spec_kids(w, id) =~= spec_kids(v, id));
    }
}

/// A child has one parent: the node its parent pointer names.
pub proof fn lemma_unique_parent(v: TreeView, x: u64, y: u64, c: u64)
    requires
        v.wf_except(x),
        v.in_tree(y),
        v.nodes[y].children.contains(Some(c)),
    ensures
        v.nodes[c].parent_node_id == Some(y),
        v.in_tree(c),
        v.height(c) + 1 == v.height(y),
{
    assert(v.shape_ok(y));
    let j = choose|j: int| 0 <= j < v.nodes[y].children.len() && v.nodes[y].children[j] == Some(c);
    assert(v.nodes[y].children[j] is Some);
    crate::btree::lemma_children_parent(v, x, y, c);
}

/// The records under every node of a tree with sorted records are sorted.
pub proof fn lemma_sorted_sub(v: TreeView, x: u64, id: u64)
    requires
        v.wf_except(x),
        v.root is Some,
        spec_sorted(spec_records(v)),
        v.in_tree(id),
    ensures
        spec_sorted(spec_inorder(v, id)),
    decreases v.tree_height() - v.height(id),
{
    assert(v.shape_ok(id));
    if !v.is_root(id) {
        let pp = v.nodes[id].parent_node_id->0;
        assert(v.in_tree(pp));
        assert(v.shape_ok(pp));
        assert(!v.nodes[pp].is_leaf) by {
            let j = choose|j: int| 0 <= j < v.nodes[pp].children.len() && v.nodes[pp].children[j] == Some(id);
            assert(v.nodes[pp].children[j] is Some);
        }
        crate::btree::lemma_children_parent(v, x, pp, id);
        lemma_sorted_sub(v, x, pp);
        let j = choose|j: int| 0 <= j < v.nodes[pp].children.len() && v.nodes[pp].children[j] == Some(id);
        assert(spec_kids(v, pp)[j] == spec_inorder(v, id));
        lemma_inorder_weave(v, pp, 0);
        lemma_weave_sorted(v.nodes[pp].keys, spec_kids(v, pp), 0);
    }
}

/// A merge keeps the records of the tree, in order.
pub proof fn lemma_merge_records(v: TreeView, w: TreeView, x: u64, a: u64, b: u64, p: u64, k: int)
    requires
        crate::btree::spec_merge_done(v, w, x, a, b, p, k),
    ensures
        spec_records(w) == spec_records(v),
{
    crate::btree::lemma_merge_facts(v, w, x, a, b, p, k);
    crate::btree::lemma_merge_wf(v, w, x, a, b, p, k);
    let va = v.nodes[a];
    let vb = v.nodes[b];
    let vp = v.nodes[p];
    let ha = v.height(a);
    let d = set![a, b];
    // Nodes other than a, b and p keep their keys and children, and only p
    // has a or b as a child.
    assert forall|y: u64| #[trigger] w.in_tree(y) && y != a && y != b && y != p implies spec_kept(v, w, y, d) by {
        assert(v.in_tree(y));
        assert forall|c: u64| #[trigger] w.nodes[y].children.contains(Some(c)) implies !d.contains(c) && (w.in_tree(c)
            == v.in_tree(c)) && (w.in_tree(c) ==> w.height(c) == v.height(c)) by {
            lemma_unique_parent(v, x, y, c);
            assert(c != a && c != b);
        }
    }
    // Below the merged nodes, and beside them, nothing changes.
    assert forall|y: u64| #[trigger] w.in_tree(y) && w.height(y) <= ha && y != a && y != b implies spec_inorder(w, y)
        == spec_inorder(v, y) by {
        lemma_inorder_frame(v, w, y, d, Set::empty(), ha);
    }
    // The merged node holds a's records, the parent's record and b's records.
    let wa = w.nodes[a];
    assert(spec_kids(w, a) =~= spec_kids(v, a) + spec_kids(v, b)) by {
        assert forall|j: int| 0 <= j < wa.children.len() implies #[trigger] spec_kids(w, a)[j] == (spec_kids(v, a)
            + spec_kids(v, b))[j] by {
            if j < va.children.len() {
                assert(wa.children[j] == va.children[j]);
                if let Some(c) = va.children[j] {
                    assert(va.children.contains(Some(c)));
                }
            } else {
                assert(wa.children[j] == vb.children[j - va.children.len()]);
                if let Some(c) = vb.children[j - va.children.len()] {
                    assert(vb.children.contains(Some(c)));
                }
            }
        }
    }
    assert(v.shape_ok(a) && v.shape_ok(b));
    lemma_inorder_weave(w, a, 0);
    lemma_inorder_weave(v, a, 0);
    lemma_inorder_weave(v, b, 0);
    lemma_weave_concat(va.keys, vp.keys[k], vb.keys, spec_kids(v, a), spec_kids(v, b), 0);
    assert(spec_inorder(w, a) == spec_inorder(v, a) + seq![vp.keys[k]] + spec_inorder(v, b));
    // The parent's records stay.
    let wp = w.nodes[p];
    let fv = spec_kids(v, p);
    let fw = spec_kids(w, p);
    assert(v.shape_ok(p));
    assert(fv[k] == spec_inorder(v, a)) by {
        assert(vp.children[k] == Some(a));
    }
    assert(fv[k + 1] == spec_inorder(v, b)) by {
        assert(vp.children[k + 1] == Some(b));
    }
    assert(fw[k] == spec_inorder(w, a)) by {
        assert(wp.children[k] == Some(a));
        assert(w.in_tree(a));
    }
    assert forall|j: int| 0 <= j < fw.len() && j != k implies #[trigger] fw[j] == fv[if j < k { j } else { j + 1 }] by {
        let jj = if j < k { j } else { j + 1 };
        assert(wp.children[j] == vp.children[jj]);
        if let Some(c) = vp.children[jj] {
            assert(vp.children.contains(Some(c)));
            lemma_unique_parent(v, x, p, c);
            assert(c != b) by {
                if c == b {
                    assert(vp.children[k + 1] == Some(b));
                }
            }
            assert(c != a) by {
                if c == a {
                    assert(vp.children[k] == Some(a));
                }
            }
        }
    }
    lemma_inorder_weave(w, p, 0);
    lemma_inorder_weave(v, p, 0);
    lemma_weave_segment(vp.keys, fv, k);
    lemma_weave_kid(wp.keys, fw, k);
    assert(wp.keys.subrange(0, k) =~= vp.keys.subrange(0, k));
    assert(fw.subrange(0, k) =~= fv.subrange(0, k));
    assert(wp.keys.subrange(k, wp.keys.len() as int) =~= vp.keys.subrange(k + 1, vp.keys.len() as int));
    assert(fw.subrange(k + 1, fw.len() as int) =~= fv.subrange(k + 2, fv.len() as int));
    assert(spec_inorder(w, p) == spec_inorder(v, p));
    // Above the parent, nothing changes either.
    let r = v.root->0;
    assert(v.in_tree(r));
    assert(w.in_tree(r));
    assert(r != a && r != b);
    lemma_inorder_frame(v, w, r, d, set![p], w.tree_height());
}

/// In a tree with sorted records, a record of child `j` of a node goes into
/// that node at position `j`.
pub proof fn lemma_insert_pos_child(v: TreeView, x: u64, p: u64, j: int, r: Record)
    requires
        v.wf_except(x),
        v.root is Some,
        spec_sorted(spec_records(v)),
        v.in_tree(p),
        0 <= j < v.nodes[p].children.len(),
        v.nodes[p].children[j] is Some,
        spec_kids(v, p)[j].contains(r),
    ensures
        crate::btree::spec_insert_pos(v.nodes[p].keys, r.key) == j,
{
    let vp = v.nodes[p];
    let kids = spec_kids(v, p);
    assert(v.shape_ok(p));
    lemma_sorted_sub(v, x, p);
    lemma_inorder_weave(v, p, 0);
    lemma_weave_sorted(vp.keys, kids, 0);
    let t = choose|t: int| 0 <= t < kids[j].len() && kids[j][t] == r;
    assert forall|i: int| 0 <= i < j implies #[trigger] vp.keys[i].key < r.key by {
        assert(kids[j][t].key < vp.keys[j - 1].key || j - 1 == i || true);
        assert(vp.keys[j - 1].key < kids[j][t].key);
        if i < j - 1 {
            assert(vp.keys[i].key < vp.keys[j - 1].key);
        }
    }
    assert forall|i: int| j <= i < vp.keys.len() implies #[trigger] vp.keys[i].key > r.key by {
        assert(kids[j][t].key < vp.keys[j].key);
        if i > j {
            assert(vp.keys[j].key < vp.keys[i].key);
        }
    }
    lemma_bsearch_sorted(vp.keys, r.key, 0, vp.keys.len() as int);
}

/// The records of a node come up in the records under it.
pub proof fn lemma_keys_in_inorder(v: TreeView, id: u64, i: int)
    requires
        v.nodes[id].children.len() == v.nodes[id].keys.len() + 1,
        0 <= i < v.nodes[id].keys.len(),
    ensures
        spec_inorder(v, id).contains(v.nodes[id].keys[i]),
{
    lemma_inorder_weave(v, id, 0);
    lemma_weave_members(v.nodes[id].keys, spec_kids(v, id), 0);
}

/// In a split, the nodes other than the halves and the parent are kept,
/// and the records under the nodes up to the halves' height stay.
pub proof fn lemma_split_kept(v: TreeView, w: TreeView, x: u64, n: u64, p: u64, new_root: bool)
    requires
        crate::btree::spec_split_done(v, w, x, n, p, new_root),
    ensures
        forall|y: u64| #[trigger] w.in_tree(y) && y != x && y != n && y != p ==> spec_kept(v, w, y, set![x, n]),
        forall|y: u64| #[trigger] w.in_tree(y) && w.height(y) <= v.height(x) && y != x && y != n ==> spec_inorder(w, y)
            == spec_inorder(v, y),
{
    crate::btree::lemma_split_halves(v, w, x, n, p, new_root);
    let sx = v.nodes[x];
    let hx = v.height(x);
    let d = set![x, n];
    if !new_root {
        assert(v.shape_ok(x));
        lemma_unique_parent(v, x, p, x);
    }
    assert(w.height(p) == hx + 1);
    assert forall|y: u64| #[trigger] w.in_tree(y) && y != x && y != n && y != p implies spec_kept(v, w, y, d) by {
        assert(v.in_tree(y));
        assert forall|c: u64| #[trigger] w.nodes[y].children.contains(Some(c)) implies !d.contains(c) && (w.in_tree(c)
            == v.in_tree(c)) && (w.in_tree(c) ==> w.height(c) == v.height(c)) by {
            lemma_unique_parent(v, x, y, c);
            assert(c != x) by {
                if c == x && !new_root {
                    assert(sx.parent_node_id == Some(p));
                }
            }
            assert(c != n);
            if new_root {
                assert(c != p);
            }
        }
    }
    assert forall|y: u64| #[trigger] w.in_tree(y) && w.height(y) <= hx && y != x && y != n implies spec_inorder(w, y)
        == spec_inorder(v, y) by {
        lemma_inorder_frame(v, w, y, d, Set::empty(), hx);
    }
}

/// In a split, the halves hold the records of the split node around its
/// middle record.
#[verifier::spinoff_prover]
#[verifier::rlimit(40)]
pub proof fn lemma_split_halves_records(v: TreeView, w: TreeView, x: u64, n: u64, p: u64, new_root: bool)
    requires
        crate::btree::spec_split_done(v, w, x, n, p, new_root),
    ensures
        spec_inorder(v, x) == spec_inorder(w, x) + seq![v.nodes[x].keys[v.order as int]] + spec_inorder(w, n),
{
    crate::btree::lemma_split_halves(v, w, x, n, p, new_root);
    lemma_split_kept(v, w, x, n, p, new_root);
    let sx = v.nodes[x];
    let o = v.order;
    let hx = v.height(x);
    let mid = sx.keys[o as int];
    let kv = spec_kids(v, x);
    let wx = w.nodes[x];
    let wn = w.nodes[n];
    assert(spec_kids(w, x) =~= kv.subrange(0, o as int + 1)) by {
        assert forall|j: int| 0 <= j < wx.children.len() implies #[trigger] spec_kids(w, x)[j] == kv[j] by {
            assert(wx.children[j] == sx.children[j]);
            if let Some(c) = sx.children[j] {
                assert(sx.children.contains(Some(c)));
                lemma_unique_parent(v, x, x, c);
            }
        }
    }
    assert(spec_kids(w, n) =~= kv.subrange(o as int + 1, kv.len() as int)) by {
        assert forall|j: int| 0 <= j < wn.children.len() implies #[trigger] spec_kids(w, n)[j] == kv[o + 1 + j] by {
            assert(wn.children[j] == sx.children[o + 1 + j]);
            if let Some(c) = sx.children[o + 1 + j] {
                assert(sx.children.contains(Some(c)));
                lemma_unique_parent(v, x, x, c);
                assert(w.height(n) == hx);
            }
        }
    }
    lemma_inorder_weave(v, x, 0);
    lemma_inorder_weave(w, x, 0);
    lemma_inorder_weave(w, n, 0);
    assert(sx.keys =~= sx.keys.subrange(0, o as int) + seq![mid] + sx.keys.subrange(o as int + 1, sx.keys.len() as int));
    assert(kv =~= kv.subrange(0, o as int + 1) + kv.subrange(o as int + 1, kv.len() as int));
    lemma_weave_concat(
        sx.keys.subrange(0, o as int),
        mid,
        sx.keys.subrange(o as int + 1, sx.keys.len() as int),
        kv.subrange(0, o as int + 1),
        kv.subrange(o as int + 1, kv.len() as int),
        0,
    );
}

/// A split keeps the records of a tree with sorted records, in order.
#[verifier::spinoff_prover]
#[verifier::rlimit(40)]
pub proof fn lemma_split_records(v: TreeView, w: TreeView, x: u64, n: u64, p: u64, new_root: bool)
    requires
        crate::btree::spec_split_done(v, w, x, n, p, new_root),
        spec_sorted(spec_records(v)),
    ensures
        spec_records(w) == spec_records(v),
{
    crate::btree::lemma_split_halves(v, w, x, n, p, new_root);
    crate::btree::lemma_split_wf(v, w, x, n, p, new_root);
    crate::btree::lemma_split_parent_children(v, w, x, n, p, new_root);
    lemma_split_kept(v, w, x, n, p, new_root);
    lemma_split_halves_records(v, w, x, n, p, new_root);
    let sx = v.nodes[x];
    let o = v.order;
    let mid = sx.keys[o as int];
    let d = set![x, n];
    assert(v.shape_ok(x));
    let wp = w.nodes[p];
    let fw = spec_kids(w, p);
    assert(w.in_tree(x) && w.in_tree(n));
    if new_root {
        assert(wp.keys =~= seq![mid]);
        assert(wp.children =~= seq![Some(x), Some(n)]);
        assert(fw[0] == spec_inorder(w, x));
        assert(fw[1] == spec_inorder(w, n));
        lemma_inorder_weave(w, p, 0);
        assert(spec_weave(wp.keys, fw, 1) == fw[1]);
        assert(spec_inorder(w, p) == spec_inorder(w, x) + seq![mid] + spec_inorder(w, n));
        assert(spec_records(w) == spec_inorder(w, p));
    } else {
        let vp = v.nodes[p];
        let fv = spec_kids(v, p);
        assert(v.in_tree(p));
        assert(v.shape_ok(p));
        let j = choose|j: int| 0 <= j < vp.children.len() && vp.children[j] == Some(x);
        assert(fv[j] == spec_inorder(v, x)) by {
            assert(vp.children.contains(Some(x)));
            lemma_unique_parent(v, x, p, x);
        }
        lemma_keys_in_inorder(v, x, o as int);
        lemma_insert_pos_child(v, x, p, j, mid);
        assert(wp.keys == vp.keys.insert(j, mid));
        assert(wp.children == vp.children.insert(j + 1, Some(n)));
        assert(fw[j] == spec_inorder(w, x)) by {
            assert(wp.children[j] == Some(x));
            assert(w.height(p) == w.height(x) + 1);
        }
        assert(fw[j + 1] == spec_inorder(w, n)) by {
            assert(wp.children[j + 1] == Some(n));
            assert(w.height(p) == w.height(n) + 1);
        }
        assert forall|t: int| 0 <= t < fw.len() && t != j && t != j + 1 implies #[trigger] fw[t] == fv[if t < j { t } else { t - 1 }] by {
            let tt = if t < j { t } else { t - 1 };
            assert(wp.children[t] == vp.children[tt]);
            if let Some(c) = vp.children[tt] {
                assert(vp.children.contains(Some(c)));
                lemma_unique_parent(v, x, p, c);
                assert(c != x) by {
                    if c == x {
                        assert(tt != j);
                        assert(vp.children[j] == vp.children[tt]);
                    }
                }
                assert(c != n);
                assert(w.in_tree(c));
            }
        }
        lemma_inorder_weave(w, p, 0);
        lemma_inorder_weave(v, p, 0);
        lemma_weave_kid(vp.keys, fv, j);
        lemma_weave_segment(wp.keys, fw, j);
        assert(wp.keys.subrange(0, j) =~= vp.keys.subrange(0, j));
        assert(fw.subrange(0, j) =~= fv.subrange(0, j));
        assert(wp.keys.subrange(j + 1, wp.keys.len() as int) =~= vp.keys.subrange(j, vp.keys.len() as int));
        assert(fw.subrange(j + 2, fw.len() as int) =~= fv.subrange(j + 1, fv.len() as int));
        assert(spec_inorder(w, p) == spec_inorder(v, p));
        let r = w.root->0;
        assert(w.in_tree(r));
        assert(r != x && r != n);
        lemma_inorder_frame(v, w, r, d, set![p], w.tree_height());
    }
}

/// In a tree with sorted records, the first record of a left neighbour has
/// a smaller key than the first record of the right one.
pub proof fn lemma_neighbours_ordered(v: TreeView, x: u64, a: u64, b: u64, p: u64, k: int)
    requires
        v.wf_except(x),
        v.root is Some,
        spec_sorted(spec_records(v)),
        v.in_tree(p),
        0 <= k < v.nodes[p].keys.len(),
        v.nodes[p].children[k] == Some(a),
        v.nodes[p].children[k + 1] == Some(b),
        v.nodes[a].keys.len() > 0,
        v.nodes[b].keys.len() > 0,
    ensures
        v.nodes[a].keys[0].key < v.nodes[b].keys[0].key,
{
    let vp = v.nodes[p];
    let kids = spec_kids(v, p);
    assert(v.shape_ok(p));
    assert(vp.children.contains(Some(a)));
    assert(vp.children.contains(Some(b)));
    lemma_unique_parent(v, x, p, a);
    lemma_unique_parent(v, x, p, b);
    assert(v.shape_ok(a) && v.shape_ok(b));
    assert(kids[k] == spec_inorder(v, a));
    assert(kids[k + 1] == spec_inorder(v, b));
    lemma_keys_in_inorder(v, a, 0);
    lemma_keys_in_inorder(v, b, 0);
    lemma_sorted_sub(v, x, p);
    lemma_inorder_weave(v, p, 0);
    lemma_weave_sorted(vp.keys, kids, 0);
    let ka = kids[k];
    let kb = kids[k + 1];
    let ta = choose|t: int| 0 <= t < ka.len() && #[trigger] ka[t] == v.nodes[a].keys[0];
    let tb = choose|t: int| 0 <= t < kb.len() && #[trigger] kb[t] == v.nodes[b].keys[0];
    assert(kids[k][ta].key < vp.keys[k].key);
    assert(vp.keys[k].key < kids[k + 1][tb].key);
}

/// Evening out two neighbours keeps the records of a tree with sorted
/// records, in order, when the first is the left one.
#[verifier::spinoff_prover]
#[verifier::rlimit(40)]
pub proof fn lemma_redist_records(v: TreeView, w: TreeView, x: u64, s: u64, l: u64, p: u64, kpos: int)
    requires
        crate::btree::spec_redistributed(v, w, x, s, l, p, kpos),
        v.nodes[p].children[kpos] == Some(s),
        v.nodes[p].children[kpos + 1] == Some(l),
    ensures
        spec_records(w) == spec_records(v),
{
    crate::btree::lemma_redist_pool(v, w, x, s, l, p, kpos);
    crate::btree::lemma_redistribute_wf(v, w, x, s, l, p, kpos);
    let vs = v.nodes[s];
    let vl = v.nodes[l];
    let vp = v.nodes[p];
    let hs = v.height(s);
    let d = set![s, l];
    let pool = crate::btree::spec_pool_keys(vs, vl, vp.keys[kpos]);
    let cpool = crate::btree::spec_pool_children(vs, vl);
    let m: int = pool.len() as int / 2;
    assert(v.shape_ok(s) && v.shape_ok(l) && v.shape_ok(p));
    assert(vp.children.contains(Some(s)));
    assert(vp.children.contains(Some(l)));
    lemma_unique_parent(v, x, p, s);
    assert(v.height(p) == hs + 1);
    assert forall|y: u64| #[trigger] w.in_tree(y) && y != s && y != l && y != p implies spec_kept(v, w, y, d) by {
        assert(v.in_tree(y));
        assert forall|c: u64| #[trigger] w.nodes[y].children.contains(Some(c)) implies !d.contains(c) && (w.in_tree(c)
            == v.in_tree(c)) && (w.in_tree(c) ==> w.height(c) == v.height(c)) by {
            lemma_unique_parent(v, x, y, c);
        }
    }
    assert forall|y: u64| #[trigger] w.in_tree(y) && w.height(y) <= hs && y != s && y != l implies spec_inorder(w, y)
        == spec_inorder(v, y) by {
        lemma_inorder_frame(v, w, y, d, Set::empty(), hs);
    }
    // The pooled records, cut at the middle instead of at the parent's record.
    let kp = spec_kids(v, s) + spec_kids(v, l);
    assert(kp.len() == cpool.len());
    assert forall|j: int| 0 <= j < cpool.len() implies #[trigger] kp[j] == (if cpool[j] is Some && v.height(
        spec_child(cpool, j),
    ) < hs {
        spec_inorder(v, spec_child(cpool, j))
    } else {
        Seq::<Record>::empty()
    }) by {
        if j < vs.children.len() {
            assert(cpool[j] == vs.children[j]);
        } else {
            assert(cpool[j] == vl.children[j - vs.children.len()]);
        }
    }
    assert(spec_kids(w, s) =~= kp.subrange(0, m + 1)) by {
        assert forall|j: int| 0 <= j < w.nodes[s].children.len() implies #[trigger] spec_kids(w, s)[j] == kp[j] by {
            assert(w.nodes[s].children[j] == cpool[j]);
        }
    }
    assert(spec_kids(w, l) =~= kp.subrange(m + 1, kp.len() as int)) by {
        assert forall|j: int| 0 <= j < w.nodes[l].children.len() implies #[trigger] spec_kids(w, l)[j] == kp[m + 1 + j] by {
            assert(w.nodes[l].children[j] == cpool[m + 1 + j]);
        }
    }
    lemma_inorder_weave(v, s, 0);
    lemma_inorder_weave(v, l, 0);
    lemma_inorder_weave(w, s, 0);
    lemma_inorder_weave(w, l, 0);
    lemma_weave_concat(vs.keys, vp.keys[kpos], vl.keys, spec_kids(v, s), spec_kids(v, l), 0);
    assert(pool =~= pool.subrange(0, m) + seq![pool[m]] + pool.subrange(m + 1, pool.len() as int));
    assert(kp =~= kp.subrange(0, m + 1) + kp.subrange(m + 1, kp.len() as int));
    lemma_weave_concat(
        pool.subrange(0, m),
        pool[m],
        pool.subrange(m + 1, pool.len() as int),
        kp.subrange(0, m + 1),
        kp.subrange(m + 1, kp.len() as int),
        0,
    );
    assert(spec_inorder(w, s) + seq![pool[m]] + spec_inorder(w, l) == spec_inorder(v, s) + seq![vp.keys[kpos]]
        + spec_inorder(v, l));
    // The parent keeps its records.
    let wp = w.nodes[p];
    let fv = spec_kids(v, p);
    let fw = spec_kids(w, p);
    assert(fv[kpos] == spec_inorder(v, s));
    assert(fv[kpos + 1] == spec_inorder(v, l));
    assert(fw[kpos] == spec_inorder(w, s));
    assert(fw[kpos + 1] == spec_inorder(w, l));
    assert forall|t: int| 0 <= t < fw.len() && t != kpos && t != kpos + 1 implies #[trigger] fw[t] == fv[t] by {
        if let Some(c) = vp.children[t] {
            assert(vp.children.contains(Some(c)));
            lemma_unique_parent(v, x, p, c);
            assert(c != s && c != l);
        }
    }
    lemma_inorder_weave(w, p, 0);
    lemma_inorder_weave(v, p, 0);
    lemma_weave_segment(vp.keys, fv, kpos);
    lemma_weave_segment(wp.keys, fw, kpos);
    assert(wp.keys.subrange(0, kpos) =~= vp.keys.subrange(0, kpos));
    assert(fw.subrange(0, kpos) =~= fv.subrange(0, kpos));
    assert(wp.keys.subrange(kpos + 1, wp.keys.len() as int) =~= vp.keys.subrange(kpos + 1, vp.keys.len() as int));
    assert(fw.subrange(kpos + 2, fw.len() as int) =~= fv.subrange(kpos + 2, fv.len() as int));
    assert(spec_inorder(w, p) == spec_inorder(v, p));
    let r = w.root->0;
    assert(v.in_tree(r));
    assert(w.in_tree(r));
    assert(r != s && r != l);
    lemma_inorder_frame(v, w, r, d, set![p], w.tree_height());
}

/// Making the only child of an empty root the root keeps the records.
pub proof fn lemma_collapse_records(v: TreeView, w: TreeView, r: u64, c: u64)
    requires
        v.wf_except(r),
        v.is_root(r),
        v.nodes[r].keys.len() == 0,
        !v.nodes[r].is_leaf,
        v.nodes[r].children[0] == Some(c),
        w.order == v.order,
        w.root == Some(c),
        w.heights == v.heights.remove(r),
        w.nodes.dom() == w.heights.dom(),
        w.nodes[c] == (crate::node::NodeView { parent_node_id: None, ..v.nodes[c] }),
        forall|id: u64| #[trigger] v.in_tree(id) && id != r && id != c ==> w.nodes[id] == v.nodes[id],
    ensures
        spec_records(w) == spec_records(v),
{
    crate::btree::lemma_collapse_wf(v, w, r, c);
    assert(v.in_tree(r));
    assert(v.shape_ok(r));
    assert(v.nodes[r].children.contains(Some(c)));
    lemma_unique_parent(v, r, r, c);
    let d = Set::<u64>::empty();
    assert forall|y: u64| #[trigger] w.in_tree(y) && w.height(y) <= w.tree_height() && !Set::<u64>::empty().contains(y)
        && !d.contains(y) implies spec_kept(v, w, y, d) by {
        assert(v.in_tree(y));
        assert forall|ch: u64| #[trigger] w.nodes[y].children.contains(Some(ch)) implies !d.contains(ch) && (w.in_tree(ch)
            == v.in_tree(ch)) && (w.in_tree(ch) ==> w.height(ch) == v.height(ch)) by {
            lemma_unique_parent(v, r, y, ch);
            assert(ch != r) by {
                if ch == r {
                    assert(v.shape_ok(r));
                }
            }
        }
    }
    lemma_inorder_frame(v, w, c, d, Set::empty(), w.tree_height());
    lemma_inorder_weave(v, r, 0);
    assert(spec_kids(v, r)[0] == spec_inorder(v, c));
}

/// The records under a node stay when the only nodes that changed, `z1`
/// and `z2`, each have a record under them that is not under this node.
pub proof fn lemma_frame_key(v: TreeView, w: TreeView, y: u64, z1: u64, a1: Record, z2: u64, a2: Record)
    requires
        v.wf(),
        v.in_tree(y),
        w.heights == v.heights,
        forall|u: u64| #[trigger] v.in_tree(u) && v.height(u) <= v.height(y) && u != z1 && u != z2 ==> w.nodes[u]
            == v.nodes[u],
        spec_inorder(v, z1).contains(a1),
        spec_inorder(v, z2).contains(a2),
        !spec_inorder(v, y).contains(a1),
        !spec_inorder(v, y).contains(a2),
    ensures
        spec_inorder(w, y) == spec_inorder(v, y),
    decreases v.height(y),
{
    let n = v.nodes[y];
    assert(y != z1 && y != z2);
    assert(v.shape_ok(y));
    lemma_inorder_weave(v, y, 0);
    lemma_inorder_weave(w, y, 0);
    assert forall|j: int| 0 <= j < n.children.len() implies #[trigger] spec_kid(w, y, j) == spec_kid(v, y, j) by {
        if let Some(c) = n.children[j] {
            if v.in_tree(c) && v.height(c) < v.height(y) {
                {
                    lemma_weave_members(n.keys, spec_kids(v, y), 0);
                    assert(spec_kids(v, y)[j] == spec_inorder(v, c));
                    assert forall|t: int| 0 <= t < spec_inorder(v, c).len() implies spec_inorder(v, y).contains(
                        #[trigger] spec_inorder(v, c)[t],
                    ) by {
                        assert(spec_kids(v, y)[j][t] == spec_inorder(v, c)[t]);
                    }
                    if spec_inorder(v, c).contains(a1) {
                        let t = choose|t: int| 0 <= t < spec_inorder(v, c).len() && spec_inorder(v, c)[t] == a1;
                        assert(spec_inorder(v, y).contains(spec_inorder(v, c)[t]));
                    }
                    if spec_inorder(v, c).contains(a2) {
                        let t = choose|t: int| 0 <= t < spec_inorder(v, c).len() && spec_inorder(v, c)[t] == a2;
                        assert(spec_inorder(v, y).contains(spec_inorder(v, c)[t]));
                    }
                    lemma_frame_key(v, w, c, z1, a1, z2, a2);
                }
            }
        }
    }
    assert(spec_kids(w, y) =~= spec_kids(v, y));
}

/// A record put between the smaller and the larger keys of a sorted
/// sequence keeps it sorted.
pub proof fn lemma_sorted_insert(s: Seq<Record>, q: int, r: Record)
    requires
        spec_sorted(s),
        0 <= q <= s.len(),
        forall|t: int| 0 <= t < q ==> #[trigger] s[t].key < r.key,
        forall|t: int| q <= t < s.len() ==> #[trigger] s[t].key > r.key,
    ensures
        spec_sorted(s.insert(q, r)),
{
    let s2 = s.insert(q, r);
    assert forall|i: int, j: int| 0 <= i < j < s2.len() implies #[trigger] s2[i].key < #[trigger] s2[j].key by {
        if i < q && j < q {
            assert(s2[i] == s[i] && s2[j] == s[j]);
        } else if i < q && j == q {
            assert(s2[i] == s[i]);
        } else if i < q {
            assert(s2[i] == s[i] && s2[j] == s[j - 1]);
        } else if i == q {
            assert(s2[j] == s[j - 1]);
        } else {
            assert(s2[i] == s[i - 1] && s2[j] == s[j - 1]);
        }
    }
}

/// The leaf where a search ends holds records that lie under the node where
/// it began.
pub proof fn lemma_search_reaches(v: TreeView, id: u64, k: u64)
    requires
        v.wf(),
        v.in_tree(id),
        spec_search(v, id, k) is Err,
    ensures
        spec_inorder(v, id).contains(v.nodes[spec_search(v, id, k)->Err_0.1].keys[0]),
        v.nodes[spec_search(v, id, k)->Err_0.1].keys.len() >= 1,
    decreases v.height(id),
{
    let n = v.nodes[id];
    assert(v.shape_ok(id) && v.size_ok(id));
    crate::btree::lemma_search_ends(v, id, k);
    lemma_bsearch_range(n.keys, k, 0, n.keys.len() as int);
    match spec_bsearch(n.keys, k, 0, n.keys.len() as int) {
        Ok(i) => {},
        Err(i) => {
            match n.children[i as int] {
                Some(c) => {
                    assert(spec_child(n.children, i as int) == c);
                    lemma_search_reaches(v, c, k);
                    let a = v.nodes[spec_search(v, id, k)->Err_0.1].keys[0];
                    lemma_inorder_weave(v, id, 0);
                    lemma_weave_members(n.keys, spec_kids(v, id), 0);
                    assert(spec_kids(v, id)[i as int] == spec_inorder(v, c));
                    let t = choose|t: int| 0 <= t < spec_inorder(v, c).len() && spec_inorder(v, c)[t] == a;
                    assert(spec_kids(v, id)[i as int][t] == a);
                },
                None => {
                    assert(v.size_ok(id));
                    lemma_keys_in_inorder(v, id, 0);
                },
            }
        },
    }
}

/// The tree `v` with record `r` put into its leaf `l`.
pub open spec fn spec_leaf_added(v: TreeView, l: u64, r: Record) -> TreeView {
    crate::btree::spec_view_with(v, l, crate::btree::spec_basic_insert(v.nodes[l], r, None, None))
}

/// Putting a record into a sequence of a sorted weave, where it lies
/// between the keys around that sequence, puts it into the weave.
#[verifier::spinoff_prover]
pub proof fn lemma_weave_insert(
    keys: Seq<Record>,
    kids: Seq<Seq<Record>>,
    i: int,
    bw: Seq<Record>,
    q2: int,
    r: Record,
)
    requires
        kids.len() == keys.len() + 1,
        0 <= i <= keys.len(),
        spec_sorted(spec_weave(keys, kids, 0)),
        0 <= q2 <= kids[i].len(),
        bw == kids[i].insert(q2, r),
        spec_sorted(bw),
        forall|j: int| 0 <= j < i ==> #[trigger] keys[j].key < r.key,
        forall|j: int| i <= j < keys.len() ==> #[trigger] keys[j].key > r.key,
    ensures
        spec_sorted(spec_weave(keys, kids.update(i, bw), 0)),
        exists|q: int|
            0 <= q <= spec_weave(keys, kids, 0).len() && spec_weave(keys, kids.update(i, bw), 0) == spec_weave(
                keys,
                kids,
                0,
            ).insert(q, r),
{
    let k = r.key;
    let fv2 = kids.update(i, bw);
    lemma_weave_sorted(keys, kids, 0);
    lemma_weave_kid(keys, kids, i);
    lemma_weave_kid(keys, fv2, i);
    assert(fv2.subrange(0, i) =~= kids.subrange(0, i));
    assert(fv2.subrange(i + 1, fv2.len() as int) =~= kids.subrange(i + 1, kids.len() as int));
    let lk = keys.subrange(0, i);
    let lf = kids.subrange(0, i).push(Seq::empty());
    let rk = keys.subrange(i, keys.len() as int);
    let rf = seq![Seq::<Record>::empty()] + kids.subrange(i + 1, kids.len() as int);
    let left = spec_weave(lk, lf, 0);
    let right = spec_weave(rk, rf, 0);
    let q = left.len() + q2;
    let sv = spec_weave(keys, kids, 0);
    assert(sv == left + kids[i] + right);
    assert(left + kids[i].insert(q2, r) + right =~= (left + kids[i] + right).insert(q, r));
    lemma_weave_members(lk, lf, 0);
    lemma_weave_members(rk, rf, 0);
    assert forall|x: Record| #[trigger] left.contains(x) implies x.key < k by {
        if exists|j: int| 0 <= j < lk.len() && lk[j] == x {
            let j = choose|j: int| 0 <= j < lk.len() && lk[j] == x;
            assert(keys[j] == x);
        } else {
            let (j, t) = choose|j: int, t: int| 0 <= j < lf.len() && 0 <= t < lf[j].len() && lf[j][t] == x;
            assert(j < i);
            assert(kids[j][t] == x);
            assert(kids[j][t].key < keys[j].key);
        }
    }
    assert forall|x: Record| #[trigger] right.contains(x) implies x.key > k by {
        if exists|j: int| 0 <= j < rk.len() && rk[j] == x {
            let j = choose|j: int| 0 <= j < rk.len() && rk[j] == x;
            assert(keys[i + j] == x);
        } else {
            let (j, t) = choose|j: int, t: int| 0 <= j < rf.len() && 0 <= t < rf[j].len() && rf[j][t] == x;
            assert(j > 0);
            assert(kids[i + j][t] == x);
            assert(keys[i + j - 1].key < kids[i + j][t].key);
        }
    }
    assert forall|t: int| 0 <= t < q implies #[trigger] sv[t].key < k by {
        if t < left.len() {
            assert(sv[t] == left[t]);
            assert(left.contains(left[t]));
        } else {
            assert(sv[t] == kids[i][t - left.len()]);
            assert(bw[t - left.len()] == kids[i][t - left.len()]);
            assert(bw[q2] == r);
        }
    }
    assert forall|t: int| q <= t < sv.len() implies #[trigger] sv[t].key > k by {
        if t < left.len() + kids[i].len() {
            assert(sv[t] == kids[i][t - left.len()]);
            assert(bw[t - left.len() + 1] == kids[i][t - left.len()]);
            assert(bw[q2] == r);
        } else {
            assert(sv[t] == right[t - left.len() - kids[i].len()]);
            assert(right.contains(right[t - left.len() - kids[i].len()]));
        }
    }
    lemma_sorted_insert(sv, q, r);
}

/// Putting a record with a new key into a leaf, where binary search places
/// it, keeps its records sorted.
pub proof fn lemma_insert_leaf(v: TreeView, id: u64, r: Record)
    requires
        v.wf(),
        v.in_tree(id),
        v.nodes[id].is_leaf,
        spec_sorted(spec_inorder(v, id)),
        !spec_has_key(spec_inorder(v, id), r.key),
    ensures
        ({
            let w = spec_leaf_added(v, id, r);
            &&& spec_sorted(spec_inorder(w, id))
            &&& exists|q: int|
                0 <= q <= spec_inorder(v, id).len() && spec_inorder(w, id) == spec_inorder(v, id).insert(q, r)
        }),
{
    let k = r.key;
    let n = v.nodes[id];
    let keys = n.keys;
    let kids = spec_kids(v, id);
    let w = spec_leaf_added(v, id, r);
    assert(v.shape_ok(id) && v.size_ok(id));
    lemma_inorder_weave(v, id, 0);
    assert forall|j: int| 0 <= j < kids.len() implies #[trigger] kids[j] == Seq::<Record>::empty() by {
        assert(n.children[j] is None);
    }
    lemma_weave_flat(keys, kids, 0);
    assert(keys.subrange(0, keys.len() as int) =~= keys);
    assert(spec_inorder(v, id) == keys);
    assert(spec_sorted(keys));
    crate::btree::lemma_insert_pos(keys, k);
    lemma_bsearch_sorted(keys, k, 0, keys.len() as int);
    let i = crate::btree::spec_insert_pos(keys, k);
    assert(spec_bsearch(keys, k, 0, keys.len() as int) is Err) by {
        if spec_bsearch(keys, k, 0, keys.len() as int) is Ok {
            let j = spec_bsearch(keys, k, 0, keys.len() as int)->Ok_0 as int;
            assert(spec_inorder(v, id)[j].key == k);
        }
    }
    let m = w.nodes[id];
    assert(m.keys == keys.insert(i, r));
    lemma_inorder_weave(w, id, 0);
    assert forall|j: int| 0 <= j < spec_kids(w, id).len() implies #[trigger] spec_kids(w, id)[j] == Seq::<Record>::empty() by {
        assert(m.children[j] is None);
    }
    lemma_weave_flat(m.keys, spec_kids(w, id), 0);
    assert(m.keys.subrange(0, m.keys.len() as int) =~= m.keys);
    lemma_sorted_insert(keys, i, r);
}

/// Putting a record with a new key into the leaf where its search ends puts
/// it among the records under every node on the way, in key order.
#[verifier::spinoff_prover]
#[verifier::rlimit(40)]
pub proof fn lemma_insert_path(v: TreeView, id: u64, r: Record)
    requires
        v.wf(),
        v.in_tree(id),
        spec_sorted(spec_inorder(v, id)),
        !spec_has_key(spec_inorder(v, id), r.key),
        spec_search(v, id, r.key) is Err,
    ensures
        ({
            let w = spec_leaf_added(v, spec_search(v, id, r.key)->Err_0.1, r);
            &&& spec_sorted(spec_inorder(w, id))
            &&& exists|q: int|
                0 <= q <= spec_inorder(v, id).len() && spec_inorder(w, id) == spec_inorder(v, id).insert(q, r)
        }),
    decreases v.height(id),
{
    let k = r.key;
    let n = v.nodes[id];
    let keys = n.keys;
    let kids = spec_kids(v, id);
    let l = spec_search(v, id, k)->Err_0.1;
    let w = spec_leaf_added(v, l, r);
    assert(v.shape_ok(id));
    lemma_bsearch_range(keys, k, 0, keys.len() as int);
    let i = spec_bsearch(keys, k, 0, keys.len() as int)->Err_0 as int;
    if n.is_leaf {
        assert(n.children[i] is None);
        lemma_insert_leaf(v, id, r);
    } else {
        lemma_inorder_weave(v, id, 0);
        assert(spec_sorted(keys)) by {
            lemma_weave_sorted(keys, kids, 0);
        }
        lemma_bsearch_sorted(keys, k, 0, keys.len() as int);
        let c = spec_child(n.children, i);
        assert(n.children[i] == Some(c));
        assert(v.in_tree(c) && v.height(c) < v.height(id));
        assert(kids[i] == spec_inorder(v, c));
        assert(spec_search(v, c, k) == spec_search(v, id, k));
        assert(spec_sorted(kids[i]) && !spec_has_key(kids[i], k)) by {
            lemma_weave_sorted(keys, kids, 0);
            lemma_weave_members(keys, kids, 0);
            if spec_has_key(kids[i], k) {
                let t = choose|t: int| 0 <= t < kids[i].len() && #[trigger] kids[i][t].key == k;
                assert(spec_inorder(v, id).contains(kids[i][t]));
                let u = choose|u: int| 0 <= u < spec_inorder(v, id).len() && spec_inorder(v, id)[u] == kids[i][t];
                assert(spec_inorder(v, id)[u].key == k);
            }
        }
        lemma_insert_path(v, c, r);
        let bw = spec_inorder(w, c);
        let q2 = choose|q: int| 0 <= q <= kids[i].len() && bw == kids[i].insert(q, r);
        lemma_insert_others(v, id, r, i);
        let fv2 = kids.update(i, bw);
        crate::btree::lemma_search_ends(v, id, k);
        assert(l != id);
        assert(w.nodes[id] == n);
        assert(spec_kids(w, id)[i] == bw);
        assert(spec_kids(w, id).len() == fv2.len());
        assert(spec_kids(w, id) =~= fv2);
        lemma_inorder_weave(w, id, 0);
        lemma_weave_insert(keys, kids, i, bw, q2, r);
    }
}

/// Putting a record into the leaf where its search ends leaves the records
/// under the other children of a node on the way.
#[verifier::spinoff_prover]
pub proof fn lemma_insert_others(v: TreeView, id: u64, r: Record, i: int)
    requires
        v.wf(),
        v.in_tree(id),
        !v.nodes[id].is_leaf,
        spec_sorted(spec_inorder(v, id)),
        spec_search(v, id, r.key) is Err,
        spec_bsearch(v.nodes[id].keys, r.key, 0, v.nodes[id].keys.len() as int) == Err::<usize, usize>(i as usize),
        0 <= i <= v.nodes[id].keys.len(),
    ensures
        ({
            let w = spec_leaf_added(v, spec_search(v, id, r.key)->Err_0.1, r);
            forall|j: int| 0 <= j < v.nodes[id].children.len() && j != i ==> #[trigger] spec_kids(w, id)[j] == spec_kids(v, id)[j]
        }),
{
    let k = r.key;
    let n = v.nodes[id];
    let keys = n.keys;
    let kids = spec_kids(v, id);
    let l = spec_search(v, id, k)->Err_0.1;
    let w = spec_leaf_added(v, l, r);
    assert(v.shape_ok(id));
    lemma_inorder_weave(v, id, 0);
    lemma_weave_sorted(keys, kids, 0);
    let c = spec_child(n.children, i);
    assert(n.children[i] == Some(c));
    assert(kids[i] == spec_inorder(v, c));
    assert(spec_search(v, c, k) == spec_search(v, id, k));
    lemma_search_reaches(v, c, k);
    let a = v.nodes[l].keys[0];
    crate::btree::lemma_search_ends(v, id, k);
    assert(v.in_tree(l));
    assert(v.shape_ok(l));
    lemma_keys_in_inorder(v, l, 0);
    let ta = choose|t: int| 0 <= t < kids[i].len() && kids[i][t] == a;
    assert forall|j: int| 0 <= j < n.children.len() && j != i implies #[trigger] spec_kids(w, id)[j] == kids[j] by {
        if let Some(cj) = n.children[j] {
            assert(spec_child(n.children, j) == cj);
            assert(kids[j] == spec_inorder(v, cj));
            assert(!spec_inorder(v, cj).contains(a)) by {
                if spec_inorder(v, cj).contains(a) {
                    let tb = choose|t: int| 0 <= t < kids[j].len() && kids[j][t] == a;
                    if j < i {
                        assert(kids[j][tb].key < keys[j].key);
                        assert(keys[i - 1].key < kids[i][ta].key);
                        if j < i - 1 {
                            assert(keys[j].key < keys[i - 1].key);
                        }
                    } else {
                        assert(keys[j - 1].key < kids[j][tb].key);
                        assert(kids[i][ta].key < keys[i].key);
                        if j - 1 > i {
                            assert(keys[i].key < keys[j - 1].key);
                        }
                    }
                }
            }
            lemma_frame_key(v, w, cj, l, a, l, a);
        }
    }
}

/// Taking a record out of a sorted sequence keeps it sorted.
pub proof fn lemma_sorted_remove(s: Seq<Record>, q: int)
    requires
        spec_sorted(s),
        0 <= q < s.len(),
    ensures
        spec_sorted(s.remove(q)),
{
    let s2 = s.remove(q);
    assert forall|i: int, j: int| 0 <= i < j < s2.len() implies #[trigger] s2[i].key < #[trigger] s2[j].key by {
        let ii = if i < q { i } else { i + 1 };
        let jj = if j < q { j } else { j + 1 };
        assert(s2[i] == s[ii] && s2[j] == s[jj]);
    }
}

/// The records under the node where a search finds its key lie under the
/// node where the search began.
pub proof fn lemma_search_sub(v: TreeView, id: u64, k: u64)
    requires
        v.wf(),
        v.in_tree(id),
        spec_search(v, id, k) is Ok,
    ensures
        v.in_tree(spec_search(v, id, k)->Ok_0.1),
        forall|t: int|
            0 <= t < spec_inorder(v, spec_search(v, id, k)->Ok_0.1).len() ==> spec_inorder(v, id).contains(
                #[trigger] spec_inorder(v, spec_search(v, id, k)->Ok_0.1)[t],
            ),
    decreases v.height(id),
{
    let n = v.nodes[id];
    assert(v.shape_ok(id));
    lemma_bsearch_range(n.keys, k, 0, n.keys.len() as int);
    match spec_bsearch(n.keys, k, 0, n.keys.len() as int) {
        Ok(i) => {
            let x = id;
            assert forall|t: int| 0 <= t < spec_inorder(v, x).len() implies spec_inorder(v, id).contains(
                #[trigger] spec_inorder(v, x)[t],
            ) by {
                assert(spec_inorder(v, id)[t] == spec_inorder(v, x)[t]);
            }
        },
        Err(i) => {
            let c = spec_child(n.children, i as int);
            assert(n.children[i as int] == Some(c));
            lemma_search_sub(v, c, k);
            let x = spec_search(v, id, k)->Ok_0.1;
            lemma_inorder_weave(v, id, 0);
            lemma_weave_members(n.keys, spec_kids(v, id), 0);
            assert(spec_kids(v, id)[i as int] == spec_inorder(v, c));
            assert forall|t: int| 0 <= t < spec_inorder(v, x).len() implies spec_inorder(v, id).contains(
                #[trigger] spec_inorder(v, x)[t],
            ) by {
                let e = spec_inorder(v, x)[t];
                assert(spec_inorder(v, c).contains(e));
                let u = choose|u: int| 0 <= u < spec_inorder(v, c).len() && spec_inorder(v, c)[u] == e;
                assert(spec_kids(v, id)[i as int][u] == e);
            }
        },
    }
}

/// Taking the first record out of the leftmost leaf under node `c` takes
/// the first record out of the records under `c`.
#[verifier::spinoff_prover]
pub proof fn lemma_smallest_remove(v: TreeView, w: TreeView, c: u64)
    requires
        v.wf(),
        v.in_tree(c),
        spec_sorted(spec_inorder(v, c)),
        w.heights == v.heights,
        w.nodes[crate::btree::spec_smallest(v, c).1] == crate::btree::spec_leaf_remove(
            v.nodes[crate::btree::spec_smallest(v, c).1],
            0,
        ),
        forall|u: u64| #[trigger]
            v.in_tree(u) && v.height(u) <= v.height(c) && u != crate::btree::spec_smallest(v, c).1 ==> w.nodes[u]
                == v.nodes[u],
    ensures
        spec_inorder(v, c).len() > 0,
        spec_inorder(v, c)[0] == crate::btree::spec_smallest(v, c).0,
        spec_inorder(w, c) == spec_inorder(v, c).drop_first(),
    decreases v.height(c),
{
    let n = v.nodes[c];
    let keys = n.keys;
    let kids = spec_kids(v, c);
    let ls = crate::btree::spec_smallest(v, c).1;
    let s = crate::btree::spec_smallest(v, c).0;
    assert(v.shape_ok(c) && v.size_ok(c));
    crate::btree::lemma_extremes(v, c);
    lemma_inorder_weave(v, c, 0);
    if n.is_leaf {
        assert(n.children[0] is None);
        assert(ls == c);
        assert forall|j: int| 0 <= j < kids.len() implies #[trigger] kids[j] == Seq::<Record>::empty() by {
            assert(n.children[j] is None);
        }
        lemma_weave_flat(keys, kids, 0);
        assert(keys.subrange(0, keys.len() as int) =~= keys);
        let m = w.nodes[c];
        lemma_inorder_weave(w, c, 0);
        assert forall|j: int| 0 <= j < spec_kids(w, c).len() implies #[trigger] spec_kids(w, c)[j] == Seq::<Record>::empty() by {
            assert(m.children[j] == n.children[j + 1]);
        }
        lemma_weave_flat(m.keys, spec_kids(w, c), 0);
        assert(m.keys.subrange(0, m.keys.len() as int) =~= m.keys);
        assert(m.keys =~= keys.drop_first());
    } else {
        let c0 = spec_child(n.children, 0);
        assert(n.children[0] == Some(c0));
        assert(v.in_tree(c0) && v.height(c0) < v.height(c));
        assert(crate::btree::spec_smallest(v, c) == crate::btree::spec_smallest(v, c0));
        assert(kids[0] == spec_inorder(v, c0));
        lemma_weave_sorted(keys, kids, 0);
        lemma_smallest_remove(v, w, c0);
        assert(w.nodes[c] == n);
        crate::btree::lemma_extremes(v, c0);
        assert(v.shape_ok(ls));
        lemma_keys_in_inorder(v, ls, 0);
        let fw = spec_kids(w, c);
        assert forall|j: int| 1 <= j < fw.len() implies #[trigger] fw[j] == kids[j] by {
            let cj = spec_child(n.children, j);
            assert(n.children[j] == Some(cj));
            assert(kids[j] == spec_inorder(v, cj));
            assert(!spec_inorder(v, cj).contains(s)) by {
                if spec_inorder(v, cj).contains(s) {
                    let tb = choose|t: int| 0 <= t < kids[j].len() && kids[j][t] == s;
                    assert(keys[j - 1].key < kids[j][tb].key);
                    assert(kids[0][0].key < keys[0].key);
                    if j - 1 > 0 {
                        assert(keys[0].key < keys[j - 1].key);
                    }
                }
            }
            lemma_frame_key(v, w, cj, ls, s, ls, s);
        }
        assert(fw[0] == spec_inorder(w, c0));
        lemma_inorder_weave(w, c, 0);
        lemma_weave_first(keys, kids);
        lemma_weave_first(keys, fw);
        assert(fw.update(0, Seq::empty()) =~= kids.update(0, Seq::empty()));
        assert(spec_inorder(v, c) == kids[0] + spec_weave(keys, kids.update(0, Seq::empty()), 0));
        assert(spec_inorder(w, c) =~= spec_inorder(v, c).drop_first());
    }
}

/// Taking a record out of one sequence of a weave takes it out of the weave.
pub proof fn lemma_weave_remove(keys: Seq<Record>, kids: Seq<Seq<Record>>, i: int, q2: int)
    requires
        kids.len() == keys.len() + 1,
        0 <= i <= keys.len(),
        0 <= q2 < kids[i].len(),
    ensures
        exists|q: int|
            0 <= q < spec_weave(keys, kids, 0).len() && spec_weave(keys, kids, 0)[q] == kids[i][q2]
                && spec_weave(keys, kids.update(i, kids[i].remove(q2)), 0) == spec_weave(keys, kids, 0).remove(q),
{
    let f2 = kids.update(i, kids[i].remove(q2));
    lemma_weave_kid(keys, kids, i);
    lemma_weave_kid(keys, f2, i);
    assert(f2.subrange(0, i) =~= kids.subrange(0, i));
    assert(f2.subrange(i + 1, f2.len() as int) =~= kids.subrange(i + 1, kids.len() as int));
    let left = spec_weave(keys.subrange(0, i), kids.subrange(0, i).push(Seq::empty()), 0);
    let right = spec_weave(
        keys.subrange(i, keys.len() as int),
        seq![Seq::<Record>::empty()] + kids.subrange(i + 1, kids.len() as int),
        0,
    );
    let q = left.len() + q2;
    assert(left + kids[i].remove(q2) + right =~= (left + kids[i] + right).remove(q));
    assert((left + kids[i] + right)[q] == kids[i][q2]);
}

/// Deleting a key from the node that holds it takes its record out of the
/// records under that node.
pub proof fn lemma_delete_found(v: TreeView, x: u64, k: u64)
    requires
        crate::btree::spec_delete_pre(v, x, k),
        spec_sorted(spec_inorder(v, x)),
    ensures
        exists|q: int|
            0 <= q < spec_inorder(v, x).len() && spec_inorder(v, x)[q] == v.nodes[x].keys[crate::btree::spec_key_pos(v, x, k)]
                && spec_inorder(crate::btree::spec_deleted(v, x, k), x) == spec_inorder(v, x).remove(q),
{
    if v.nodes[x].is_leaf {
        lemma_delete_found_leaf(v, x, k);
    } else {
        lemma_delete_found_inner(v, x, k);
    }
}

/// Deleting a key from the leaf that holds it takes its record out of the
/// leaf's records.
pub proof fn lemma_delete_found_leaf(v: TreeView, x: u64, k: u64)
    requires
        crate::btree::spec_delete_pre(v, x, k),
        v.nodes[x].is_leaf,
    ensures
        spec_inorder(v, x)[crate::btree::spec_key_pos(v, x, k)] == v.nodes[x].keys[crate::btree::spec_key_pos(v, x, k)],
        0 <= crate::btree::spec_key_pos(v, x, k) < spec_inorder(v, x).len(),
        spec_inorder(crate::btree::spec_deleted(v, x, k), x) == spec_inorder(v, x).remove(
            crate::btree::spec_key_pos(v, x, k),
        ),
{
    let n = v.nodes[x];
    let pos = crate::btree::spec_key_pos(v, x, k);
    let w = crate::btree::spec_deleted(v, x, k);
    assert(v.shape_ok(x));
    lemma_bsearch_range(n.keys, k, 0, n.keys.len() as int);
    assert forall|j: int| 0 <= j < n.children.len() implies #[trigger] n.children[j] is None by {}
    lemma_childless_inorder(v, x);
    let m = w.nodes[x];
    assert forall|j: int| 0 <= j < m.children.len() implies #[trigger] m.children[j] is None by {
        assert(m.children[j] == n.children[if j < pos { j } else { j + 1 }]);
    }
    lemma_childless_inorder(w, x);
}

/// Deleting a key from the inner node that holds it, in place of which the
/// smallest record to its right comes, takes its record out of the records
/// under that node.
#[verifier::spinoff_prover]
#[verifier::rlimit(40)]
pub proof fn lemma_delete_found_inner(v: TreeView, x: u64, k: u64)
    requires
        crate::btree::spec_delete_pre(v, x, k),
        spec_sorted(spec_inorder(v, x)),
        !v.nodes[x].is_leaf,
    ensures
        exists|q: int|
            0 <= q < spec_inorder(v, x).len() && spec_inorder(v, x)[q] == v.nodes[x].keys[crate::btree::spec_key_pos(v, x, k)]
                && spec_inorder(crate::btree::spec_deleted(v, x, k), x) == spec_inorder(v, x).remove(q),
{
    let n = v.nodes[x];
    let keys = n.keys;
    let kids = spec_kids(v, x);
    let pos = crate::btree::spec_key_pos(v, x, k);
    let w = crate::btree::spec_deleted(v, x, k);
    assert(v.shape_ok(x));
    lemma_bsearch_range(keys, k, 0, keys.len() as int);
    lemma_inorder_weave(v, x, 0);
    lemma_inorder_weave(w, x, 0);
    let c = spec_child(n.children, pos + 1);
    assert(n.children[pos + 1] == Some(c));
    assert(v.in_tree(c) && v.height(c) < v.height(x));
    assert(kids[pos + 1] == spec_inorder(v, c));
    crate::btree::lemma_extremes(v, c);
    let (s, ls) = crate::btree::spec_smallest(v, c);
    assert(ls != x);
    assert(spec_sorted(kids[pos + 1])) by {
        lemma_weave_sorted(keys, kids, 0);
    }
    lemma_smallest_remove(v, w, c);
    let fw = spec_kids(w, x);
    let m = w.nodes[x];
    assert(m.children == n.children);
    lemma_delete_inner_others(v, x, k);
    assert(fw[pos + 1] == kids[pos + 1].drop_first());
    lemma_weave_segment(keys, kids, pos);
    lemma_weave_segment(m.keys, fw, pos);
    assert(m.keys.subrange(0, pos) =~= keys.subrange(0, pos));
    assert(fw.subrange(0, pos) =~= kids.subrange(0, pos));
    assert(m.keys.subrange(pos + 1, m.keys.len() as int) =~= keys.subrange(pos + 1, keys.len() as int));
    assert(fw.subrange(pos + 2, fw.len() as int) =~= kids.subrange(pos + 2, kids.len() as int));
    let left = spec_weave(keys.subrange(0, pos), kids.subrange(0, pos).push(Seq::empty()), 0);
    let right = spec_weave(
        keys.subrange(pos + 1, keys.len() as int),
        seq![Seq::<Record>::empty()] + kids.subrange(pos + 2, kids.len() as int),
        0,
    );
    let q: int = (left.len() + kids[pos].len()) as int;
    assert(kids[pos + 1] =~= seq![s] + kids[pos + 1].drop_first());
    assert(left + (kids[pos] + seq![s] + kids[pos + 1].drop_first()) + right =~= (left + (kids[pos]
        + seq![keys[pos]] + kids[pos + 1]) + right).remove(q));
    assert((left + (kids[pos] + seq![keys[pos]] + kids[pos + 1]) + right)[q] == keys[pos]);
}

/// Deleting a key from an inner node leaves the records under its children
/// but the one right of the key.
#[verifier::spinoff_prover]
pub proof fn lemma_delete_inner_others(v: TreeView, x: u64, k: u64)
    requires
        crate::btree::spec_delete_pre(v, x, k),
        spec_sorted(spec_inorder(v, x)),
        !v.nodes[x].is_leaf,
    ensures
        forall|j: int|
            0 <= j < v.nodes[x].children.len() && j != crate::btree::spec_key_pos(v, x, k) + 1
                ==> #[trigger] spec_kids(crate::btree::spec_deleted(v, x, k), x)[j] == spec_kids(v, x)[j],
{
    let n = v.nodes[x];
    let keys = n.keys;
    let kids = spec_kids(v, x);
    let pos = crate::btree::spec_key_pos(v, x, k);
    let w = crate::btree::spec_deleted(v, x, k);
    assert(v.shape_ok(x));
    lemma_bsearch_range(keys, k, 0, keys.len() as int);
    lemma_inorder_weave(v, x, 0);
    lemma_weave_sorted(keys, kids, 0);
    let c = spec_child(n.children, pos + 1);
    assert(n.children[pos + 1] == Some(c));
    assert(kids[pos + 1] == spec_inorder(v, c));
    crate::btree::lemma_extremes(v, c);
    let (s, ls) = crate::btree::spec_smallest(v, c);
    lemma_smallest_in(v, c);
    assert(v.shape_ok(ls));
    lemma_keys_in_inorder(v, ls, 0);
    let m = w.nodes[x];
    assert(m.children == n.children);
    assert forall|j: int| 0 <= j < n.children.len() && j != pos + 1 implies #[trigger] spec_kids(w, x)[j] == kids[j] by {
        let cj = spec_child(n.children, j);
        assert(n.children[j] == Some(cj));
        assert(kids[j] == spec_inorder(v, cj));
        assert(!spec_inorder(v, cj).contains(s)) by {
            if spec_inorder(v, cj).contains(s) {
                let tb = choose|t: int| 0 <= t < kids[j].len() && kids[j][t] == s;
                assert(kids[pos + 1][0] == s);
                if j < pos + 1 {
                    assert(kids[j][tb].key < keys[j].key);
                    assert(keys[pos].key < kids[pos + 1][0].key);
                    if j < pos {
                        assert(keys[j].key < keys[pos].key);
                    }
                } else {
                    assert(keys[j - 1].key < kids[j][tb].key);
                    assert(kids[pos + 1][0].key < keys[pos + 1].key);
                    if j - 1 > pos + 1 {
                        assert(keys[pos + 1].key < keys[j - 1].key);
                    }
                }
            }
        }
        lemma_frame_key(v, w, cj, ls, s, ls, s);
    }
}

/// The nodes that a deletion from node `x` changes: `x`, and the leaf of
/// the smallest record to the right of the key when `x` is inner; each with
/// a record under it.
pub proof fn lemma_delete_changes(v: TreeView, x: u64, k: u64)
    requires
        crate::btree::spec_delete_pre(v, x, k),
    ensures
        ({
            let w = crate::btree::spec_deleted(v, x, k);
            let z2 = crate::btree::spec_delete_leaf(v, x, k);
            let a1 = v.nodes[x].keys[crate::btree::spec_key_pos(v, x, k)];
            let a2 = v.nodes[z2].keys[0];
            &&& w.heights == v.heights
            &&& v.in_tree(z2)
            &&& forall|u: u64| #[trigger] v.in_tree(u) && u != x && u != z2 ==> w.nodes[u] == v.nodes[u]
            &&& spec_inorder(v, x).contains(a1)
            &&& spec_inorder(v, z2).contains(a2)
            &&& spec_inorder(v, x).contains(a2)
            &&& a1.key == k
            &&& v.nodes[z2].is_leaf
        }),
{
    let n = v.nodes[x];
    let pos = crate::btree::spec_key_pos(v, x, k);
    assert(v.shape_ok(x) && v.size_ok(x));
    lemma_bsearch_range(n.keys, k, 0, n.keys.len() as int);
    lemma_keys_in_inorder(v, x, pos);
    if !n.is_leaf {
        let c = spec_child(n.children, pos + 1);
        assert(n.children[pos + 1] == Some(c));
        assert(v.in_tree(c) && v.height(c) < v.height(x));
        crate::btree::lemma_extremes(v, c);
        let (s, ls) = crate::btree::spec_smallest(v, c);
        assert(v.shape_ok(ls));
        lemma_keys_in_inorder(v, ls, 0);
        crate::btree::lemma_wf_except_any(v, x);
        lemma_smallest_in(v, c);
        lemma_inorder_weave(v, x, 0);
        lemma_weave_members(n.keys, spec_kids(v, x), 0);
        assert(spec_kids(v, x)[pos + 1] == spec_inorder(v, c));
        assert(spec_kids(v, x)[pos + 1][0] == s);
    } else {
        lemma_keys_in_inorder(v, x, 0);
    }
}

/// The smallest record under a node comes first among its records.
pub proof fn lemma_smallest_in(v: TreeView, c: u64)
    requires
        v.wf(),
        v.in_tree(c),
    ensures
        spec_inorder(v, c).len() > 0,
        spec_inorder(v, c)[0] == crate::btree::spec_smallest(v, c).0,
    decreases v.height(c),
{
    let n = v.nodes[c];
    assert(v.shape_ok(c) && v.size_ok(c));
    lemma_inorder_weave(v, c, 0);
    lemma_weave_first(n.keys, spec_kids(v, c));
    if n.is_leaf {
        assert(n.children[0] is None);
        assert(spec_kids(v, c)[0] == Seq::<Record>::empty());
        assert(spec_weave(n.keys, spec_kids(v, c).update(0, Seq::empty()), 0)[0] == n.keys[0]);
    } else {
        let c0 = spec_child(n.children, 0);
        assert(n.children[0] == Some(c0));
        lemma_smallest_in(v, c0);
        assert(spec_kids(v, c)[0] == spec_inorder(v, c0));
    }
}

/// Deleting a key found by a search takes its record out of the records
/// under every node on the way.
#[verifier::spinoff_prover]
#[verifier::rlimit(40)]
pub proof fn lemma_delete_path(v: TreeView, id: u64, k: u64, x: u64)
    requires
        v.wf(),
        v.in_tree(id),
        spec_sorted(spec_inorder(v, id)),
        spec_search(v, id, k) is Ok,
        spec_search(v, id, k)->Ok_0.1 == x,
        crate::btree::spec_delete_pre(v, x, k),
    ensures
        exists|q: int|
            0 <= q < spec_inorder(v, id).len() && spec_inorder(v, id)[q].key == k && spec_inorder(
                crate::btree::spec_deleted(v, x, k),
                id,
            ) == spec_inorder(v, id).remove(q),
    decreases v.height(id),
{
    let n = v.nodes[id];
    let keys = n.keys;
    let kids = spec_kids(v, id);
    let w = crate::btree::spec_deleted(v, x, k);
    assert(v.shape_ok(id));
    lemma_bsearch_range(keys, k, 0, keys.len() as int);
    lemma_delete_changes(v, x, k);
    match spec_bsearch(keys, k, 0, keys.len() as int) {
        Ok(i) => {
            assert(x == id);
            lemma_delete_found(v, x, k);
            lemma_bsearch_range(keys, k, 0, keys.len() as int);
        },
        Err(i) => {
            let i = i as int;
            let c = spec_child(n.children, i);
            assert(n.children[i] == Some(c));
            assert(v.in_tree(c) && v.height(c) < v.height(id));
            lemma_inorder_weave(v, id, 0);
            lemma_weave_sorted(keys, kids, 0);
            assert(kids[i] == spec_inorder(v, c));
            assert(spec_search(v, c, k) == spec_search(v, id, k));
            lemma_delete_path(v, c, k, x);
            let q2 = choose|q: int|
                0 <= q < kids[i].len() && kids[i][q].key == k && spec_inorder(w, c) == kids[i].remove(q);
            lemma_search_sub(v, c, k);
            let z2 = crate::btree::spec_delete_leaf(v, x, k);
            let a1 = v.nodes[x].keys[crate::btree::spec_key_pos(v, x, k)];
            let a2 = v.nodes[z2].keys[0];
            let t1 = choose|t: int| 0 <= t < spec_inorder(v, x).len() && spec_inorder(v, x)[t] == a1;
            let t2 = choose|t: int| 0 <= t < spec_inorder(v, x).len() && spec_inorder(v, x)[t] == a2;
            assert(kids[i].contains(spec_inorder(v, x)[t1]));
            assert(kids[i].contains(spec_inorder(v, x)[t2]));
            let u1 = choose|u: int| 0 <= u < kids[i].len() && kids[i][u] == a1;
            let u2 = choose|u: int| 0 <= u < kids[i].len() && kids[i][u] == a2;
            assert(id != x);
            assert(id != z2);
            let fw = spec_kids(w, id);
            assert(w.nodes[id] == n);
            assert forall|j: int| 0 <= j < fw.len() && j != i implies #[trigger] fw[j] == kids[j] by {
                let cj = spec_child(n.children, j);
                assert(n.children[j] == Some(cj));
                assert(kids[j] == spec_inorder(v, cj));
                assert forall|a: Record| kids[i].contains(a) implies !#[trigger] kids[j].contains(a) by {
                    let u = choose|u: int| 0 <= u < kids[i].len() && kids[i][u] == a;
                    if kids[j].contains(a) {
                        let tb = choose|t: int| 0 <= t < kids[j].len() && kids[j][t] == a;
                        if j < i {
                            assert(kids[j][tb].key < keys[j].key);
                            assert(keys[i - 1].key < kids[i][u].key);
                            if j < i - 1 {
                                assert(keys[j].key < keys[i - 1].key);
                            }
                        } else {
                            assert(keys[j - 1].key < kids[j][tb].key);
                            assert(kids[i][u].key < keys[i].key);
                            if j - 1 > i {
                                assert(keys[i].key < keys[j - 1].key);
                            }
                        }
                    }
                }
                assert(kids[i].contains(kids[i][u1]));
                assert(kids[i].contains(kids[i][u2]));
                lemma_frame_key(v, w, cj, x, a1, z2, a2);
            }
            assert(fw[i] == kids[i].remove(q2));
            assert(fw =~= kids.update(i, kids[i].remove(q2)));
            lemma_inorder_weave(w, id, 0);
            lemma_weave_remove(keys, kids, i, q2);
        },
    }
}

/// A search from the root of `v` finds `key` in node `x`.
pub open spec fn spec_found_at(v: TreeView, key: u64, x: u64) -> bool {
    &&& v.root is Some
    &&& spec_search(v, v.root->0, key) is Ok
    &&& spec_search(v, v.root->0, key)->Ok_0.1 == x
}

/// Deleting a key found in node `x` of a tree with sorted records takes its
/// record out of the tree's records, which stay sorted.
pub proof fn lemma_delete_records(v: TreeView, x: u64, k: u64)
    requires
        crate::btree::spec_delete_pre(v, x, k),
        spec_ordered(v),
        spec_found_at(v, k, x),
    ensures
        spec_ordered(crate::btree::spec_deleted(v, x, k)),
        exists|q: int|
            0 <= q < spec_records(v).len() && spec_records(v)[q].key == k && spec_records(
                crate::btree::spec_deleted(v, x, k),
            ) == spec_records(v).remove(q),
{
    let r = v.root->0;
    let w = crate::btree::spec_deleted(v, x, k);
    assert(v.in_tree(r));
    lemma_delete_path(v, r, k, x);
    let q = choose|q: int|
        0 <= q < spec_inorder(v, r).len() && spec_inorder(v, r)[q].key == k && spec_inorder(w, r)
            == spec_inorder(v, r).remove(q);
    crate::btree::lemma_deleted_wf(v, x, k);
    assert(w.root == v.root);
    lemma_sorted_remove(spec_inorder(v, r), q);
}

/// The records under a node without children are its keys.
pub proof fn lemma_childless_inorder(v: TreeView, id: u64)
    requires
        v.nodes[id].children.len() == v.nodes[id].keys.len() + 1,
        forall|j: int| 0 <= j < v.nodes[id].children.len() ==> #[trigger] v.nodes[id].children[j] is None,
    ensures
        spec_inorder(v, id) == v.nodes[id].keys,
{
    let n = v.nodes[id];
    lemma_inorder_weave(v, id, 0);
    assert forall|j: int| 0 <= j < spec_kids(v, id).len() implies #[trigger] spec_kids(v, id)[j] == Seq::<Record>::empty() by {
        assert(n.children[j] is None);
    }
    lemma_weave_flat(n.keys, spec_kids(v, id), 0);
    assert(n.keys.subrange(0, n.keys.len() as int) =~= n.keys);
}

/// A record with a new key put into the leaf where its search from the root
/// ends joins the tree's records in key order.
pub proof fn lemma_insert_records(v: TreeView, r: Record)
    requires
        v.wf(),
        v.root is Some,
        spec_ordered(v),
        !spec_has_key(spec_records(v), r.key),
    ensures
        ({
            let w = spec_leaf_added(v, spec_search(v, v.root->0, r.key)->Err_0.1, r);
            &&& spec_search(v, v.root->0, r.key) is Err
            &&& spec_ordered(w)
            &&& exists|q: int| 0 <= q <= spec_records(v).len() && spec_records(w) == spec_records(v).insert(q, r)
        }),
{
    let root = v.root->0;
    assert(v.in_tree(root));
    lemma_search_correct(v, root, r.key);
    lemma_insert_path(v, root, r);
}

/// `new` is `old` with record `r` put in at some position.
pub open spec fn spec_inserted(old: Seq<Record>, new: Seq<Record>, r: Record) -> bool {
    exists|q: int| 0 <= q <= old.len() && new == #[trigger] old.insert(q, r)
}

/// `new` is `old` with a record of key `k` taken out.
pub open spec fn spec_removed(old: Seq<Record>, new: Seq<Record>, k: u64) -> bool {
    exists|q: int| 0 <= q < old.len() && old[q].key == k && new == #[trigger] old.remove(q)
}

/// `new` is `old` with a record of key `k` taken out and record `r` put in.
pub open spec fn spec_moved(old: Seq<Record>, new: Seq<Record>, k: u64, r: Record) -> bool {
    exists|mid: Seq<Record>| #[trigger] spec_removed(old, mid, k) && spec_inserted(mid, new, r)
}

/// Law: after a record is put into a tree with sorted records, a search
/// from the root finds it by its key.
pub proof fn lemma_inserted_found(v: TreeView, w: TreeView, r: Record)
    requires
        w.wf(),
        spec_ordered(w),
        spec_inserted(spec_records(v), spec_records(w), r),
    ensures
        w.root is Some,
        spec_search(w, w.root->0, r.key) == Ok::<(Record, u64), (u64, u64)>(
            (r, spec_search(w, w.root->0, r.key)->Ok_0.1),
        ),
{
    let q = choose|q: int| 0 <= q <= spec_records(v).len() && spec_records(w) == #[trigger] spec_records(v).insert(q, r);
    let rw = spec_records(w);
    assert(rw[q] == r);
    assert(w.root is Some) by {
        if w.root is None {
            assert(rw.len() == 0);
        }
    }
    let root = w.root->0;
    assert(w.in_tree(root));
    lemma_search_correct(w, root, r.key);
    assert(spec_has_key(rw, r.key));
    let found = spec_search(w, root, r.key)->Ok_0.0;
    let t = choose|t: int| 0 <= t < rw.len() && rw[t] == found;
    if t != q {
        if t < q {
            assert(rw[t].key < rw[q].key);
        } else {
            assert(rw[q].key < rw[t].key);
        }
    }
}

/// Law: after the record of a key is taken out of a tree with sorted
/// records, no record of the tree has that key, and a search for it fails.
pub proof fn lemma_removed_gone(v: TreeView, w: TreeView, k: u64)
    requires
        spec_ordered(v),
        w.wf(),
        spec_removed(spec_records(v), spec_records(w), k),
    ensures
        !spec_has_key(spec_records(w), k),
        spec_ordered(w),
        w.root matches Some(root) ==> spec_search(w, root, k) is Err,
{
    let rv = spec_records(v);
    let rw = spec_records(w);
    let q = choose|q: int| 0 <= q < rv.len() && rv[q].key == k && rw == #[trigger] rv.remove(q);
    if spec_has_key(rw, k) {
        let t = choose|t: int| 0 <= t < rw.len() && #[trigger] rw[t].key == k;
        let tt = if t < q { t } else { t + 1 };
        assert(rw[t] == rv[tt]);
        if tt < q {
            assert(rv[tt].key < rv[q].key);
        } else {
            assert(rv[q].key < rv[tt].key);
        }
    }
    lemma_sorted_remove(rv, q);
    if let Some(root) = w.root {
        assert(w.in_tree(root));
        lemma_search_correct(w, root, k);
    }
}

/// Law: after a record moves from key `k` to the key of `r` in a tree with
/// sorted records, a search finds `r` by its key and nothing by `k`.
pub proof fn lemma_moved_found(v: TreeView, w: TreeView, k: u64, r: Record)
    requires
        spec_ordered(v),
        w.wf(),
        spec_ordered(w),
        r.key != k,
        spec_moved(spec_records(v), spec_records(w), k, r),
    ensures
        w.root is Some,
        spec_search(w, w.root->0, r.key) == Ok::<(Record, u64), (u64, u64)>(
            (r, spec_search(w, w.root->0, r.key)->Ok_0.1),
        ),
        spec_search(w, w.root->0, k) is Err,
{
    let rv = spec_records(v);
    let rw = spec_records(w);
    let mid = choose|mid: Seq<Record>| #[trigger] spec_removed(rv, mid, k) && spec_inserted(mid, rw, r);
    let q = choose|q: int| 0 <= q < rv.len() && rv[q].key == k && mid == #[trigger] rv.remove(q);
    assert(!spec_has_key(mid, k)) by {
        if spec_has_key(mid, k) {
            let t = choose|t: int| 0 <= t < mid.len() && #[trigger] mid[t].key == k;
            let tt = if t < q { t } else { t + 1 };
            assert(mid[t] == rv[tt]);
            if tt < q {
                assert(rv[tt].key < rv[q].key);
            } else {
                assert(rv[q].key < rv[tt].key);
            }
        }
    }
    let q2 = choose|q2: int| 0 <= q2 <= mid.len() && rw == #[trigger] mid.insert(q2, r);
    assert(!spec_has_key(rw, k)) by {
        if spec_has_key(rw, k) {
            let t = choose|t: int| 0 <= t < rw.len() && #[trigger] rw[t].key == k;
            if t < q2 {
                assert(rw[t] == mid[t]);
            } else if t > q2 {
                assert(rw[t] == mid[t - 1]);
            }
        }
    }
    assert(rw[q2] == r);
    assert(w.root is Some) by {
        if w.root is None {
            assert(rw.len() == 0);
        }
    }
    let root = w.root->0;
    assert(w.in_tree(root));
    lemma_search_correct(w, root, r.key);
    lemma_search_correct(w, root, k);
    assert(spec_has_key(rw, r.key));
    let found = spec_search(w, root, r.key)->Ok_0.0;
    let t = choose|t: int| 0 <= t < rw.len() && rw[t] == found;
    if t != q2 {
        if t < q2 {
            assert(rw[t].key < rw[q2].key);
        } else {
            assert(rw[q2].key < rw[t].key);
        }
    }
}

} // verus!
