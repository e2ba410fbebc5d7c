//! B-tree nodes. A node holds up to `CAPACITY` ordered key-value pairs; an
//! internal node also holds one more child than it holds pairs, and every
//! leaf lies at the same depth. The contents of a subtree are described by
//! its in-order sequence of pairs, built by interleaving the children's
//! sequences with the node's own pairs.
use vstd::prelude::*;

use core::cmp::Ordering;

use crate::allocator::{Allocator, Block, Layout};
use crate::order::{compare, key_lt, lemma_lt_trans, sorted_by_key, total_order};

verus! {

/// Branching parameter of the tree.
pub const B: usize = 6;

/// The most pairs a node holds.
pub const CAPACITY: usize = 2 * B - 1;

/// The fewest pairs a node other than the root is kept at after removal.
pub const MIN_LEN: usize = B - 1;

/// Interleaves child sequences with separators: `cs[0] ++ [ks[0]] ++ cs[1]
/// ++ ... ++ [ks[n-1]] ++ cs[n]`.
pub open spec fn interleave<T>(cs: Seq<Seq<T>>, ks: Seq<T>) -> Seq<T>
    decreases ks.len(),
{
    if ks.len() == 0 {
        if cs.len() == 0 {
            Seq::empty()
        } else {
            cs[0]
        }
    } else {
        cs[0] + seq![ks[0]] + interleave(cs.drop_first(), ks.drop_first())
    }
}

/// What comes before child `c` in the interleaving.
pub open spec fn before<T>(cs: Seq<Seq<T>>, ks: Seq<T>, c: int) -> Seq<T> {
    if c == 0 {
        Seq::empty()
    } else {
        interleave(cs.take(c), ks.take(c - 1)) + seq![ks[c - 1]]
    }
}

/// What comes after child `c` in the interleaving.
pub open spec fn after<T>(cs: Seq<Seq<T>>, ks: Seq<T>, c: int) -> Seq<T> {
    if c >= ks.len() {
        Seq::empty()
    } else {
        seq![ks[c]] + interleave(cs.skip(c + 1), ks.skip(c + 1))
    }
}

/// The interleaving cut at separator `m`.
pub proof fn lemma_interleave_split<T>(cs: Seq<Seq<T>>, ks: Seq<T>, m: int)
    requires
        cs.len() == ks.len() + 1,
        0 <= m < ks.len(),
    ensures
        interleave(cs, ks) == interleave(cs.take(m + 1), ks.take(m)) + seq![ks[m]] + interleave(
            cs.skip(m + 1),
            ks.skip(m + 1),
        ),
    decreases m,
{
    if m == 0 {
        assert(cs.take(1).drop_first().len() == 0);
        assert(interleave(cs.take(1), ks.take(0)) == cs[0]);
        assert(cs.skip(1) =~= cs.drop_first());
        assert(ks.skip(1) =~= ks.drop_first());
    } else {
        let cs1 = cs.drop_first();
        let ks1 = ks.drop_first();
        lemma_interleave_split(cs1, ks1, m - 1);
        assert(cs.take(m + 1).drop_first() =~= cs1.take(m));
        assert(ks.take(m).drop_first() =~= ks1.take(m - 1));
        assert(cs1.skip(m) =~= cs.skip(m + 1));
        assert(ks1.skip(m) =~= ks.skip(m + 1));
        assert(ks1[m - 1] == ks[m]);
        assert(interleave(cs.take(m + 1), ks.take(m)) == cs[0] + seq![ks[0]] + interleave(
            cs1.take(m),
            ks1.take(m - 1),
        ));
        assert(interleave(cs, ks) == cs[0] + seq![ks[0]] + interleave(cs1, ks1));
        assert((cs[0] + seq![ks[0]] + interleave(cs1.take(m), ks1.take(m - 1))) + seq![ks[m]]
            + interleave(cs.skip(m + 1), ks.skip(m + 1)) =~= cs[0] + seq![ks[0]] + (interleave(
            cs1.take(m),
            ks1.take(m - 1),
        ) + seq![ks1[m - 1]] + interleave(cs1.skip(m), ks1.skip(m))));
    }
}

/// The interleaving seen around one child.
pub proof fn lemma_decompose<T>(cs: Seq<Seq<T>>, ks: Seq<T>, c: int)
    requires
        cs.len() == ks.len() + 1,
        0 <= c <= ks.len(),
    ensures
        interleave(cs, ks) == before(cs, ks, c) + cs[c] + after(cs, ks, c),
{
    let k = ks.len() as int;
    if c < k {
        lemma_interleave_split(cs, ks, c);
        let cs2 = cs.take(c + 1);
        let ks2 = ks.take(c);
        if c == 0 {
            assert(interleave(cs2, ks2) == cs[0]);
        } else {
            lemma_interleave_split(cs2, ks2, c - 1);
            assert(cs2.take(c) =~= cs.take(c));
            assert(ks2.take(c - 1) =~= ks.take(c - 1));
            assert(cs2.skip(c) =~= seq![cs[c]]);
            assert(ks2.skip(c) =~= Seq::<T>::empty());
            assert(interleave(seq![cs[c]], Seq::<T>::empty()) == cs[c]);
        }
        assert(interleave(cs, ks) =~= before(cs, ks, c) + cs[c] + after(cs, ks, c));
    } else {
        if k == 0 {
            assert(interleave(cs, ks) =~= before(cs, ks, c) + cs[c] + after(cs, ks, c));
        } else {
            lemma_interleave_split(cs, ks, k - 1);
            assert(cs.skip(k) =~= seq![cs[k]]);
            assert(ks.skip(k) =~= Seq::<T>::empty());
            assert(interleave(seq![cs[k]], Seq::<T>::empty()) == cs[k]);
            assert(interleave(cs, ks) =~= before(cs, ks, c) + cs[c] + after(cs, ks, c));
        }
    }
}

/// The layout requested from the allocator for each node.
pub open spec fn node_layout_spec<K, V>() -> Layout {
    Layout { size: size_of::<Node<K, V>>() as usize, align: align_of::<Node<K, V>>() as usize }
}

/// The layout requested from the allocator for each node.
pub fn node_layout<K, V>() -> (r: Layout)
    ensures
        r == node_layout_spec::<K, V>(),
{
    Layout { size: core::mem::size_of::<Node<K, V>>(), align: core::mem::align_of::<Node<K, V>>() }
}

/// A position in a tree: the child indices taken from the root, and an
/// index in the node they lead to (a pair, or a gap between pairs).
#[derive(Debug)]
pub struct Handle {
    pub path: Vec<usize>,
    pub idx: usize,
}

/// A tree node: a leaf when it has no children.
#[derive(Debug)]
pub struct Node<K, V> {
    pub kvs: Vec<(K, V)>,
    pub edges: Vec<Node<K, V>>,
    pub block: Block,
}

impl<K, V> Node<K, V> {
    /// The in-order sequences of the first `n` children.
    pub closed spec fn child_seqs(self, n: nat) -> Seq<Seq<(K, V)>>
        decreases self, n,
    {
        if n == 0 || n > self.edges@.len() {
            Seq::empty()
        } else {
            self.child_seqs((n - 1) as nat).push(self.edges@[n - 1].inorder())
        }
    }

    /// The in-order sequences of the children.
    pub closed spec fn children(self) -> Seq<Seq<(K, V)>> {
        self.child_seqs(self.edges@.len())
    }

    /// The pairs of the subtree, in order.
    pub closed spec fn inorder(self) -> Seq<(K, V)>
        decreases self,
    {
        if self.edges@.len() == 0 {
            self.kvs@
        } else {
            interleave(self.child_seqs(self.edges@.len()), self.kvs@)
        }
    }

    /// The block this node was obtained with.
    pub closed spec fn spec_block(self) -> Block {
        self.block
    }

    /// A subtree of height `h`: every node within capacity, every leaf at
    /// depth `h`, and each internal node with one more child than pairs.
    pub closed spec fn wf(self, h: nat) -> bool
        decreases h,
    {
        &&& self.kvs@.len() <= CAPACITY
        &&& self.block.layout == node_layout_spec::<K, V>()
        &&& if h == 0 {
            self.edges@.len() == 0
        } else {
            &&& self.edges@.len() == self.kvs@.len() + 1
            &&& forall|j: int| 0 <= j < self.edges@.len() ==> (#[trigger] self.edges@[j]).wf(
                (h - 1) as nat,
            )
            &&& forall|j: int|
                0 <= j < self.edges@.len() ==> (#[trigger] self.edges@[j]).kvs@.len() >= MIN_LEN
        }
    }

    proof fn lemma_child_seqs(self, n: nat)
        requires
            n <= self.edges@.len(),
        ensures
            self.child_seqs(n).len() == n,
            forall|j: int| 0 <= j < n ==> #[trigger] self.child_seqs(n)[j] == self.edges@[j].inorder(),
        decreases n,
    {
        if n > 0 {
            self.lemma_child_seqs((n - 1) as nat);
        }
    }

    /// The children's sequences are those of the child nodes.
    pub proof fn lemma_children(self)
        ensures
            self.children().len() == self.edges@.len(),
            forall|j: int|
                0 <= j < self.edges@.len() ==> #[trigger] self.children()[j]
                    == self.edges@[j].inorder(),
    {
        self.lemma_child_seqs(self.edges@.len());
    }

    /// An empty leaf for `block`.
    pub fn new_leaf(block: Block) -> (r: Self)
        requires
            block.layout == node_layout_spec::<K, V>(),
        ensures
            r.wf(0),
            r.inorder() == Seq::<(K, V)>::empty(),
            r.spec_block() == block,
            r.kvs@.len() == 0,
            r.edges@.len() == 0,
    {
        Node { kvs: Vec::new(), edges: Vec::new(), block }
    }

    /// A leaf for `block` holding one pair.
    pub fn new_single(block: Block, key: K, value: V) -> (r: Self)
        requires
            block.layout == node_layout_spec::<K, V>(),
        ensures
            r.wf(0),
            r.inorder() == seq![(key, value)],
            r.kvs@.len() == 1,
            r.valid_kv(0, Seq::empty(), 0, 0),
            r.kv_pos(0, Seq::empty(), 0, 0) == 0,
    {
        let mut leaf = Node { kvs: Vec::new(), edges: Vec::new(), block };
        leaf.kvs.push((key, value));
        proof {
            assert(leaf.kvs@ =~= seq![(key, value)]);
        }
        leaf
    }

    /// Splits a full node around its middle pair: `self` keeps the pairs
    /// (and children) before it, the returned node, built on `block`, takes
    /// those after it.
    pub fn split(&mut self, h: Ghost<nat>, block: Block) -> (r: ((K, V), Node<K, V>))
        requires
            old(self).wf(h@),
            old(self).kvs@.len() == CAPACITY,
            block.layout == node_layout_spec::<K, V>(),
        ensures
            final(self).wf(h@),
            r.1.wf(h@),
            final(self).kvs@ == old(self).kvs@.take(B - 1),
            r.0 == old(self).kvs@[B - 1],
            r.1.kvs@ == old(self).kvs@.skip(B as int),
            h@ > 0 ==> final(self).edges@ == old(self).edges@.take(B as int),
            h@ > 0 ==> r.1.edges@ == old(self).edges@.skip(B as int),
            final(self).block == old(self).block,
            r.1.block == block,
            old(self).inorder() == final(self).inorder() + seq![r.0] + r.1.inorder(),
    {
        let ghost old_node = *self;
        let right_kvs = self.kvs.split_off(B);
        let kv = self.kvs.pop().unwrap();
        let right_edges = if self.edges.len() > 0 {
            self.edges.split_off(B)
        } else {
            Vec::new()
        };
        let right = Node { kvs: right_kvs, edges: right_edges, block };
        proof {
            assert(self.kvs@ =~= old_node.kvs@.take(B - 1));
            if h@ == 0 {
                assert(old_node.inorder() =~= self.inorder() + seq![kv] + right.inorder());
            } else {
                assert forall|j: int| 0 <= j < self.edges@.len() implies (#[trigger] self.edges@[
                    j]).wf((h@ - 1) as nat) by {
                    assert(self.edges@[j] == old_node.edges@[j]);
                }
                assert forall|j: int| 0 <= j < right.edges@.len() implies (#[trigger] right.edges@[
                    j]).wf((h@ - 1) as nat) by {
                    assert(right.edges@[j] == old_node.edges@[j + B]);
                }
                old_node.lemma_children();
                self.lemma_children();
                right.lemma_children();
                let cs = old_node.children();
                let ks = old_node.kvs@;
                lemma_interleave_split(cs, ks, B - 1);
                assert(self.children() =~= cs.take(B as int));
                assert(right.children() =~= cs.skip(B as int));
                assert(ks.take(B - 1) =~= self.kvs@);
                assert(ks.skip(B as int) =~= right.kvs@);
            }
        }
        (kv, right)
    }
}

/// The index taken at depth `d` along `path`, ending at `idx` below it.
pub open spec fn next_index(path: Seq<usize>, d: nat, idx: int) -> int {
    if d < path.len() {
        path[d as int] as int
    } else {
        idx
    }
}

impl<K, V> Node<K, V> {
    /// In-order position of the gap reached from this node (height `h`, at
    /// depth `d`) by taking `cur` here and following `path`, then gap `idx`
    /// in the leaf.
    pub closed spec fn edge_pos(self, h: nat, path: Seq<usize>, d: nat, cur: int, idx: int) -> int
        decreases h,
    {
        if h == 0 {
            cur
        } else {
            before(self.children(), self.kvs@, cur).len() + self.edges@[cur].edge_pos(
                (h - 1) as nat,
                path,
                d + 1,
                next_index(path, d + 1, idx),
                idx,
            )
        }
    }

    /// Every index on the way is within its node.
    pub closed spec fn valid_edge(self, h: nat, path: Seq<usize>, d: nat, cur: int, idx: int) -> bool
        decreases h,
    {
        &&& 0 <= cur <= self.kvs@.len()
        &&& h > 0 ==> self.edges@[cur].valid_edge(
            (h - 1) as nat,
            path,
            d + 1,
            next_index(path, d + 1, idx),
            idx,
        )
    }

    /// This node and every node below it on the way are full.
    pub closed spec fn full_path(self, h: nat, path: Seq<usize>, d: nat, cur: int, idx: int) -> bool
        decreases h,
    {
        &&& self.kvs@.len() == CAPACITY
        &&& h > 0 ==> self.edges@[cur].full_path(
            (h - 1) as nat,
            path,
            d + 1,
            next_index(path, d + 1, idx),
            idx,
        )
    }

    /// How many new nodes an insertion on the way below this node needs:
    /// one for each node of the full run that ends at the leaf.
    pub closed spec fn needed(self, h: nat, path: Seq<usize>, d: nat, cur: int, idx: int) -> nat
        decreases h,
    {
        if h == 0 {
            0
        } else if self.edges@[cur].full_path(
            (h - 1) as nat,
            path,
            d + 1,
            next_index(path, d + 1, idx),
            idx,
        ) {
            h
        } else {
            self.edges@[cur].needed((h - 1) as nat, path, d + 1, next_index(path, d + 1, idx), idx)
        }
    }

    /// Whether an insertion on the way adds a pair to this node.
    pub closed spec fn receives(self, h: nat, path: Seq<usize>, d: nat, cur: int, idx: int) -> bool {
        h == 0 || self.edges@[cur].full_path(
            (h - 1) as nat,
            path,
            d + 1,
            next_index(path, d + 1, idx),
            idx,
        )
    }

    proof fn lemma_needed_bound(self, h: nat, path: Seq<usize>, d: nat, cur: int, idx: int)
        ensures
            self.needed(h, path, d, cur, idx) <= h,
        decreases h,
    {
        if h > 0 {
            self.edges@[cur].lemma_needed_bound(
                (h - 1) as nat,
                path,
                d + 1,
                next_index(path, d + 1, idx),
                idx,
            );
        }
    }

    /// Replacing one child changes the sequence only at that child's place.
    proof fn lemma_replace_child(m: Node<K, V>, m2: Node<K, V>, c: int)
        requires
            m.edges@.len() == m.kvs@.len() + 1,
            0 <= c < m.edges@.len(),
            m2.kvs@ == m.kvs@,
            m2.edges@ == m.edges@.update(c, m2.edges@[c]),
        ensures
            m2.inorder() == before(m.children(), m.kvs@, c) + m2.edges@[c].inorder() + after(
                m.children(),
                m.kvs@,
                c,
            ),
            m.inorder() == before(m.children(), m.kvs@, c) + m.edges@[c].inorder() + after(
                m.children(),
                m.kvs@,
                c,
            ),
            before(m2.children(), m2.kvs@, c) == before(m.children(), m.kvs@, c),
    {
        m.lemma_children();
        m2.lemma_children();
        let cs = m.children();
        let cs2 = m2.children();
        assert(cs2 =~= cs.update(c, m2.edges@[c].inorder()));
        lemma_decompose(cs, m.kvs@, c);
        lemma_decompose(cs2, m.kvs@, c);
        assert(cs2.take(c) =~= cs.take(c));
        assert(cs2.skip(c + 1) =~= cs.skip(c + 1));
    }
}

impl<K, V> Node<K, V> {
    /// Any node that differs from `m` only in child `c`.
    proof fn lemma_replace_child_all(m: Node<K, V>, c: int, h: nat)
        requires
            m.wf(h),
            h > 0,
            0 <= c < m.edges@.len(),
        ensures
            forall|m2: Node<K, V>|
                m2.kvs@ == m.kvs@ && m2.edges@ == m.edges@.update(c, m2.edges@[c])
                    ==> #[trigger] m2.inorder() == before(m.children(), m.kvs@, c)
                    + m2.edges@[c].inorder() + after(m.children(), m.kvs@, c),
            forall|m2: Node<K, V>|
                m2.kvs@ == m.kvs@ && m2.edges@ == m.edges@.update(c, m2.edges@[c]) && m2.block
                    == m.block && m2.edges@[c].wf((h - 1) as nat) && m2.edges@[c].kvs@.len()
                    >= MIN_LEN ==> #[trigger] m2.wf(h),
            m.inorder() == before(m.children(), m.kvs@, c) + m.edges@[c].inorder() + after(
                m.children(),
                m.kvs@,
                c,
            ),
    {
        assert forall|m2: Node<K, V>|
            m2.kvs@ == m.kvs@ && m2.edges@ == m.edges@.update(
                c,
                m2.edges@[c],
            ) implies #[trigger] m2.inorder() == before(m.children(), m.kvs@, c)
            + m2.edges@[c].inorder() + after(m.children(), m.kvs@, c) by {
            Self::lemma_replace_child(m, m2, c);
        }
        assert forall|m2: Node<K, V>|
            m2.kvs@ == m.kvs@ && m2.edges@ == m.edges@.update(c, m2.edges@[c]) && m2.block
                == m.block && m2.edges@[c].wf((h - 1) as nat) && m2.edges@[c].kvs@.len()
                >= MIN_LEN implies #[trigger] m2.wf(h) by {
            assert forall|j: int| 0 <= j < m2.edges@.len() implies (#[trigger] m2.edges@[j]).wf(
                (h - 1) as nat,
            ) && m2.edges@[j].kvs@.len() >= MIN_LEN by {
                if j != c {
                    assert(m2.edges@[j] == m.edges@[j]);
                }
            }
        }
        assert(m.edges@.update(c, m.edges@[c]) =~= m.edges@);
        Self::lemma_replace_child(m, m, c);
    }

    /// A gap position lies within the sequence.
    pub proof fn lemma_edge_pos_bound(self, h: nat, path: Seq<usize>, d: nat, cur: int, idx: int)
        requires
            self.wf(h),
            self.valid_edge(h, path, d, cur, idx),
        ensures
            0 <= self.edge_pos(h, path, d, cur, idx) <= self.inorder().len(),
        decreases h,
    {
        if h > 0 {
            let e = next_index(path, d + 1, idx);
            let ch = self.edges@[cur];
            ch.lemma_edge_pos_bound((h - 1) as nat, path, d + 1, e, idx);
            self.lemma_children();
            lemma_decompose(self.children(), self.kvs@, cur);
        }
    }

    /// Inserting into the middle part of a concatenation.
    proof fn lemma_insert_in_child(a: Seq<(K, V)>, x: Seq<(K, V)>, b: Seq<(K, V)>, p: int)
        requires
            0 <= p <= x.len(),
        ensures
            forall|kv: (K, V)|
                a + #[trigger] x.insert(p, kv) + b == (a + x + b).insert(a.len() + p, kv),
    {
        assert forall|kv: (K, V)| a + #[trigger] x.insert(p, kv) + b == (a + x + b).insert(
            a.len() + p,
            kv,
        ) by {
            assert(a + x.insert(p, kv) + b =~= (a + x + b).insert(a.len() + p, kv));
        }
    }

    /// Taking in the middle pair and right half of a split child keeps the
    /// sequence and the shape of the node.
    proof fn lemma_absorb_split(
        n: Node<K, V>,
        n1: Node<K, V>,
        c: int,
        h: nat,
        left: Node<K, V>,
        med: (K, V),
        right: Node<K, V>,
    )
        requires
            n.wf(h),
            h > 0,
            0 <= c < n.edges@.len(),
            n.kvs@.len() < CAPACITY,
            n.edges@[c].inorder() == left.inorder() + seq![med] + right.inorder(),
            left.wf((h - 1) as nat),
            right.wf((h - 1) as nat),
            left.kvs@.len() >= MIN_LEN,
            right.kvs@.len() >= MIN_LEN,
            n1.kvs@ == n.kvs@.insert(c, med),
            n1.edges@ == n.edges@.update(c, left).insert(c + 1, right),
            n1.block == n.block,
        ensures
            n1.wf(h),
            n1.inorder() == n.inorder(),
            before(n1.children(), n1.kvs@, c) == before(n.children(), n.kvs@, c),
            before(n1.children(), n1.kvs@, c + 1) == before(n.children(), n.kvs@, c)
                + left.inorder() + seq![med],
    {
        n.lemma_children();
        n1.lemma_children();
        let cs = n.children();
        let ks = n.kvs@;
        let cs1 = n1.children();
        let ks1 = n1.kvs@;
        assert(cs1 =~= cs.update(c, left.inorder()).insert(c + 1, right.inorder()));
        lemma_decompose(cs1, ks1, c);
        lemma_decompose(cs, ks, c);
        assert(cs1.take(c) =~= cs.take(c));
        if c > 0 {
            assert(ks1.take(c - 1) =~= ks.take(c - 1));
            assert(ks1[c - 1] == ks[c - 1]);
        }
        assert(before(cs1, ks1, c) == before(cs, ks, c));
        let tail_cs = cs1.skip(c + 1);
        let tail_ks = ks1.skip(c + 1);
        assert(tail_cs =~= seq![right.inorder()] + cs.skip(c + 1));
        assert(tail_ks =~= ks.skip(c));
        if c < ks.len() {
            assert(tail_cs.drop_first() =~= cs.skip(c + 1));
            assert(tail_ks.drop_first() =~= ks.skip(c + 1));
            assert(interleave(tail_cs, tail_ks) == right.inorder() + seq![ks[c]] + interleave(
                cs.skip(c + 1),
                ks.skip(c + 1),
            ));
        } else {
            assert(tail_ks.len() == 0);
        }
        assert(n1.inorder() =~= n.inorder());
        let pcs = cs1.take(c + 1);
        let pks = ks1.take(c);
        lemma_decompose(pcs, pks, c);
        assert(pcs.take(c) =~= cs1.take(c));
        if c > 0 {
            assert(pks.take(c - 1) =~= ks1.take(c - 1));
        }
        assert(before(pcs, pks, c) == before(cs1, ks1, c));
        assert(after(pcs, pks, c) =~= Seq::<(K, V)>::empty());
        assert(before(cs1, ks1, c + 1) =~= before(cs, ks, c) + left.inorder() + seq![med]);
        assert forall|j: int| 0 <= j < n1.edges@.len() implies (#[trigger] n1.edges@[j]).wf(
            (h - 1) as nat,
        ) && n1.edges@[j].kvs@.len() >= MIN_LEN by {
            if j < c {
                assert(n1.edges@[j] == n.edges@[j]);
            } else if j > c + 1 {
                assert(n1.edges@[j] == n.edges@[j - 1]);
            }
        }
    }

    /// Positions below a split node, seen from its halves.
    proof fn lemma_split_pos(
        ch: Node<K, V>,
        left: Node<K, V>,
        right: Node<K, V>,
        h: nat,
        path: Seq<usize>,
        d: nat,
        e: int,
        idx: int,
    )
        requires
            ch.wf(h),
            ch.kvs@.len() == CAPACITY,
            left.kvs@ == ch.kvs@.take(B - 1),
            right.kvs@ == ch.kvs@.skip(B as int),
            h > 0 ==> left.edges@ == ch.edges@.take(B as int),
            h > 0 ==> right.edges@ == ch.edges@.skip(B as int),
            h == 0 ==> left.edges@.len() == 0 && right.edges@.len() == 0,
            ch.inorder() == left.inorder() + seq![ch.kvs@[B - 1]] + right.inorder(),
            0 <= e <= CAPACITY,
        ensures
            e < B ==> left.edge_pos(h, path, d, e, idx) == ch.edge_pos(h, path, d, e, idx),
            e >= B ==> right.edge_pos(h, path, d, e - B, idx) + left.inorder().len() + 1
                == ch.edge_pos(h, path, d, e, idx),
    {
        if h > 0 {
            ch.lemma_children();
            left.lemma_children();
            right.lemma_children();
            let cs = ch.children();
            let ks = ch.kvs@;
            assert(left.children() =~= cs.take(B as int));
            assert(right.children() =~= cs.skip(B as int));
            if e < B {
                if e > 0 {
                    assert(left.children().take(e) =~= cs.take(e));
                    assert(left.kvs@.take(e - 1) =~= ks.take(e - 1));
                }
                assert(before(left.children(), left.kvs@, e) == before(cs, ks, e));
                assert(left.edges@[e] == ch.edges@[e]);
            } else {
                assert(right.edges@[e - B] == ch.edges@[e]);
                lemma_interleave_split(cs, ks, B - 1);
                assert(left.inorder() == interleave(cs.take(B as int), ks.take(B - 1)));
                if e == B {
                    assert(before(cs, ks, e) =~= left.inorder() + seq![ks[B - 1]]);
                } else {
                    let pcs = cs.take(e);
                    let pks = ks.take(e - 1);
                    lemma_interleave_split(pcs, pks, B - 1);
                    assert(pcs.take(B as int) =~= cs.take(B as int));
                    assert(pks.take(B - 1) =~= ks.take(B - 1));
                    assert(pcs.skip(B as int) =~= right.children().take(e - B));
                    assert(pks.skip(B as int) =~= right.kvs@.take(e - B - 1));
                    assert(before(cs, ks, e) =~= left.inorder() + seq![ks[B - 1]] + before(
                        right.children(),
                        right.kvs@,
                        e - B,
                    ));
                }
            }
        }
    }

    /// Inserts `(key, value)` at the gap reached by taking `cur` here and
    /// following `path` down to gap `idx` of a leaf. Each full node of the run
    /// that ends at that leaf is split on the way down, its new right half
    /// built on one of the pre-obtained `blocks`, so that the insertion
    /// itself always finds room. Returns the stored value.
    pub fn insert_descend(
        &mut self,
        h: Ghost<nat>,
        height: usize,
        path: &Vec<usize>,
        d: usize,
        cur: usize,
        idx: usize,
        key: K,
        value: V,
        blocks: &mut Vec<Block>,
    ) -> (r: &mut V)
        requires
            old(self).wf(h@),
            height == h@,
            d + height == path.len(),
            old(self).valid_edge(h@, path@, d as nat, cur as int, idx as int),
            old(self).receives(h@, path@, d as nat, cur as int, idx as int) ==> old(
                self,
            ).kvs@.len() < CAPACITY,
            old(blocks)@.len() == old(self).needed(h@, path@, d as nat, cur as int, idx as int),
            forall|i: int|
                0 <= i < old(blocks)@.len() ==> (#[trigger] old(blocks)@[i]).layout
                    == node_layout_spec::<K, V>(),
        ensures
            final(self).wf(h@),
            final(self).block == old(self).block,
            final(self).kvs@.len() >= old(self).kvs@.len(),
            *r == value,
            final(self).inorder() == old(self).inorder().insert(
                old(self).edge_pos(h@, path@, d as nat, cur as int, idx as int),
                (key, *final(r)),
            ),
            final(blocks)@.len() == 0,
        decreases height,
    {
        if height == 0 {
            self.kvs.insert(cur, (key, value));
            let slot = &mut self.kvs[cur];
            return &mut slot.1;
        }
        let ghost n0 = *self;
        let e = if d + 1 < path.len() {
            path[d + 1]
        } else {
            idx
        };
        assert(e as int == next_index(path@, (d + 1) as nat, idx as int));
        proof {
            let ch0 = n0.edges@[cur as int];
            assert(ch0.wf((h@ - 1) as nat));
            assert(ch0.valid_edge((h@ - 1) as nat, path@, (d + 1) as nat, e as int, idx as int));
            assert(e <= ch0.kvs@.len());
            if h@ > 1 {
                let g = ch0.edges@[e as int];
                let e3 = next_index(path@, (d + 2) as nat, idx as int);
                if !ch0.full_path((h@ - 1) as nat, path@, (d + 1) as nat, e as int, idx as int)
                    && g.full_path((h@ - 2) as nat, path@, (d + 2) as nat, e3, idx as int) {
                    assert(ch0.kvs@.len() < CAPACITY);
                }
            }
            n0.edges@[cur as int].lemma_needed_bound(
                (h@ - 1) as nat,
                path@,
                (d + 1) as nat,
                e as int,
                idx as int,
            );
        }
        let mut c = cur;
        let mut e2 = e;
        if blocks.len() == height {
            let block = blocks.pop().unwrap();
            let ghost ch = n0.edges@[cur as int];
            let (kv, right) = self.edges[cur].split(Ghost((h@ - 1) as nat), block);
            let ghost left = self.edges@[cur as int];
            self.kvs.insert(cur, kv);
            self.edges.insert(cur + 1, right);
            proof {
                Self::lemma_absorb_split(n0, *self, cur as int, h@, left, kv, right);
                Self::lemma_split_pos(
                    ch,
                    left,
                    right,
                    (h@ - 1) as nat,
                    path@,
                    (d + 1) as nat,
                    e as int,
                    idx as int,
                );
            }
            if e >= B {
                c = cur + 1;
                e2 = e - B;
            }
        }
        let ghost n1 = *self;
        proof {
            Self::lemma_replace_child_all(n1, c as int, h@);
            let x = n1.edges@[c as int].inorder();
            n1.edges@[c as int].lemma_edge_pos_bound(
                (h@ - 1) as nat,
                path@,
                (d + 1) as nat,
                e2 as int,
                idx as int,
            );
            let p = n1.edges@[c as int].edge_pos(
                (h@ - 1) as nat,
                path@,
                (d + 1) as nat,
                e2 as int,
                idx as int,
            );
            Self::lemma_insert_in_child(before(n1.children(), n1.kvs@, c as int), x, after(n1.children(), n1.kvs@, c as int), p);
        }
        let child = &mut self.edges[c];
        let r = child.insert_descend(
            Ghost((h@ - 1) as nat),
            height - 1,
            path,
            d + 1,
            e2,
            idx,
            key,
            value,
            blocks,
        );
        r
    }
}

impl<K, V> Node<K, V> {
    /// In-order position of pair `idx` of the node reached by following
    /// `path` from this node (at depth `d`).
    pub closed spec fn kv_pos(self, h: nat, path: Seq<usize>, d: nat, idx: int) -> int
        decreases h,
    {
        if d >= path.len() || h == 0 {
            if h == 0 {
                idx
            } else {
                before(self.children(), self.kvs@, idx + 1).len() - 1
            }
        } else {
            before(self.children(), self.kvs@, path[d as int] as int).len() + self.edges@[path[d as int] as int].kv_pos(
                (h - 1) as nat,
                path,
                d + 1,
                idx,
            )
        }
    }

    /// `path` leads from this node to a node that holds pair `idx`.
    pub closed spec fn valid_kv(self, h: nat, path: Seq<usize>, d: nat, idx: int) -> bool
        decreases h,
    {
        if d >= path.len() {
            0 <= idx < self.kvs@.len()
        } else {
            &&& h > 0
            &&& 0 <= path[d as int] <= self.kvs@.len()
            &&& self.edges@[path[d as int] as int].valid_kv((h - 1) as nat, path, d + 1, idx)
        }
    }

    /// The pair at a valid position is the one the path leads to, and the
    /// position lies within the sequence.
    pub proof fn lemma_kv_pos(self, h: nat, path: Seq<usize>, d: nat, idx: int)
        requires
            self.wf(h),
            self.valid_kv(h, path, d, idx),
        ensures
            0 <= self.kv_pos(h, path, d, idx) < self.inorder().len(),
        decreases h,
    {
        if d >= path.len() {
            if h > 0 {
                self.lemma_children();
                lemma_decompose(self.children(), self.kvs@, idx + 1);
            }
        } else {
            let c = path[d as int] as int;
            self.edges@[c].lemma_kv_pos((h - 1) as nat, path, d + 1, idx);
            self.lemma_children();
            lemma_decompose(self.children(), self.kvs@, c);
        }
    }
}

proof fn lemma_sorted_middle<K: Ord, V>(a: Seq<(K, V)>, b: Seq<(K, V)>, c: Seq<(K, V)>)
    requires
        sorted_by_key(a + b + c),
    ensures
        sorted_by_key(b),
{
    let s = a + b + c;
    assert forall|i: int, j: int| 0 <= i < j < b.len() implies key_lt(
        #[trigger] b[i].0,
        #[trigger] b[j].0,
    ) by {
        assert(b[i] == s[a.len() + i]);
        assert(b[j] == s[a.len() + j]);
    }
}

impl<K: Ord, V> Node<K, V> {
    /// Scans the node's own keys: `r.0` is how many are below `key`, and
    /// `r.1` whether the next one equals it.
    fn find_in_node(&self, key: &K) -> (r: (usize, bool))
        requires
            total_order::<K>(),
        ensures
            r.0 <= self.kvs@.len(),
            forall|j: int| 0 <= j < r.0 ==> key_lt(#[trigger] self.kvs@[j].0, *key),
            r.1 ==> r.0 < self.kvs@.len() && self.kvs@[r.0 as int].0 == *key,
            !r.1 ==> r.0 == self.kvs@.len() || key_lt(*key, self.kvs@[r.0 as int].0),
    {
        let mut i: usize = 0;
        while i < self.kvs.len()
            invariant
                0 <= i <= self.kvs@.len(),
                total_order::<K>(),
                forall|j: int| 0 <= j < i ==> key_lt(#[trigger] self.kvs@[j].0, *key),
            decreases self.kvs@.len() - i,
        {
            match compare(key, &self.kvs[i].0) {
                Ordering::Greater => {
                    i += 1;
                },
                Ordering::Equal => {
                    return (i, true);
                },
                Ordering::Less => {
                    return (i, false);
                },
            }
        }
        (i, false)
    }

    /// Around child `i` of a sorted node whose keys before `i` are below
    /// `key` and whose key at `i` is above it.
    proof fn lemma_around_child(self, h: nat, i: int, key: K)
        requires
            self.wf(h),
            h > 0,
            total_order::<K>(),
            sorted_by_key(self.inorder()),
            0 <= i <= self.kvs@.len(),
            i > 0 ==> key_lt(self.kvs@[i - 1].0, key),
            i < self.kvs@.len() ==> key_lt(key, self.kvs@[i].0),
        ensures
            self.inorder() == before(self.children(), self.kvs@, i) + self.edges@[i].inorder()
                + after(self.children(), self.kvs@, i),
            sorted_by_key(self.edges@[i].inorder()),
            forall|j: int|
                0 <= j < before(self.children(), self.kvs@, i).len() ==> key_lt(
                    #[trigger] self.inorder()[j].0,
                    key,
                ),
            forall|j: int|
                before(self.children(), self.kvs@, i).len() + self.edges@[i].inorder().len() <= j
                    < self.inorder().len() ==> key_lt(key, #[trigger] self.inorder()[j].0),
    {
        self.lemma_children();
        let cs = self.children();
        let ks = self.kvs@;
        lemma_decompose(cs, ks, i);
        let b = before(cs, ks, i);
        let c = cs[i];
        let a = after(cs, ks, i);
        let s = self.inorder();
        lemma_sorted_middle(b, c, a);
        assert forall|j: int| 0 <= j < b.len() implies key_lt(#[trigger] s[j].0, key) by {
            let last = b.len() - 1;
            assert(s[last] == ks[i - 1]);
            if j < last {
                lemma_lt_trans(s[j].0, s[last].0, key);
            }
        }
        assert forall|j: int| b.len() + c.len() <= j < s.len() implies key_lt(
            key,
            #[trigger] s[j].0,
        ) by {
            let first = (b.len() + c.len()) as int;
            assert(s[first] == ks[i]);
            if j > first {
                lemma_lt_trans(key, s[first].0, s[j].0);
            }
        }
    }

    /// Looks `key` up below this node (at depth `old(path).len()`),
    /// extending `path` with the child indices taken. Found: `path` leads to
    /// the node holding the key, at pair `r.1`. Not found: `path` leads to a
    /// leaf and `r.1` is the gap where the key belongs.
    pub fn search(&self, h: Ghost<nat>, height: usize, key: &K, path: &mut Vec<usize>) -> (r: (
        bool,
        usize,
    ))
        requires
            self.wf(h@),
            height == h@,
            total_order::<K>(),
            sorted_by_key(self.inorder()),
            old(path)@.len() + height <= usize::MAX,
        ensures
            final(path)@.len() >= old(path)@.len(),
            final(path)@.take(old(path)@.len() as int) == old(path)@,
            r.0 ==> self.valid_kv(h@, final(path)@, old(path)@.len(), r.1 as int),
            r.0 ==> self.inorder()[self.kv_pos(h@, final(path)@, old(path)@.len(), r.1 as int)].0
                == *key,
            !r.0 ==> final(path)@.len() == old(path)@.len() + h@,
            !r.0 ==> self.valid_edge(
                h@,
                final(path)@,
                old(path)@.len(),
                next_index(final(path)@, old(path)@.len(), r.1 as int),
                r.1 as int,
            ),
            !r.0 ==> forall|j: int|
                0 <= j < self.edge_pos(
                    h@,
                    final(path)@,
                    old(path)@.len(),
                    next_index(final(path)@, old(path)@.len(), r.1 as int),
                    r.1 as int,
                ) ==> key_lt(#[trigger] self.inorder()[j].0, *key),
            !r.0 ==> forall|j: int|
                self.edge_pos(
                    h@,
                    final(path)@,
                    old(path)@.len(),
                    next_index(final(path)@, old(path)@.len(), r.1 as int),
                    r.1 as int,
                ) <= j < self.inorder().len() ==> key_lt(*key, #[trigger] self.inorder()[j].0),
        decreases height,
    {
        let ghost d = path@.len();
        let (i, found) = self.find_in_node(key);
        if found {
            proof {
                assert(path@.take(d as int) =~= path@);
                if h@ > 0 {
                    self.lemma_children();
                    lemma_decompose(self.children(), self.kvs@, i as int + 1);
                }
            }
            return (true, i);
        }
        if height == 0 {
            proof {
                assert(path@.take(d as int) =~= path@);
                let s = self.inorder();
                assert forall|j: int| i <= j < s.len() implies key_lt(*key, #[trigger] s[j].0) by {
                    if j > i {
                        lemma_lt_trans(*key, s[i as int].0, s[j].0);
                    }
                }
            }
            return (false, i);
        }
        proof {
            self.lemma_around_child(h@, i as int, *key);
        }
        path.push(i);
        let ghost mid = path@;
        let res = self.edges[i].search(Ghost((h@ - 1) as nat), height - 1, key, path);
        proof {
            let fp = path@;
            assert(fp.take(d as int) =~= mid.take(d as int));
            assert(mid.take(d as int) =~= old(path)@);
            assert(fp[d as int] == i) by {
                assert(fp.take(d + 1 as int) == mid);
                assert(fp.take(d + 1 as int)[d as int] == fp[d as int]);
                assert(mid[d as int] == i);
            }
            let ch = self.edges@[i as int];
            let b = before(self.children(), self.kvs@, i as int);
            if res.0 {
                ch.lemma_kv_pos((h@ - 1) as nat, fp, d + 1, res.1 as int);
            } else {
                assert(next_index(fp, d, res.1 as int) == i);
                ch.lemma_edge_pos_bound(
                    (h@ - 1) as nat,
                    fp,
                    d + 1,
                    next_index(fp, d + 1, res.1 as int),
                    res.1 as int,
                );
                let ep = ch.edge_pos(
                    (h@ - 1) as nat,
                    fp,
                    d + 1,
                    next_index(fp, d + 1, res.1 as int),
                    res.1 as int,
                );
                let s = self.inorder();
                assert forall|j: int| 0 <= j < b.len() + ep implies key_lt(
                    #[trigger] s[j].0,
                    *key,
                ) by {
                    if j >= b.len() {
                        assert(s[j] == ch.inorder()[j - b.len()]);
                    }
                }
                assert forall|j: int| b.len() + ep <= j < s.len() implies key_lt(
                    *key,
                    #[trigger] s[j].0,
                ) by {
                    if j < b.len() + ch.inorder().len() {
                        assert(s[j] == ch.inorder()[j - b.len()]);
                    }
                }
            }
        }
        res
    }
}

impl<K, V> Node<K, V> {
    /// Any node that differs from `m` only in child `c`, seen from a path
    /// through that child.
    proof fn lemma_replace_child_kv(m: Node<K, V>, c: int, h: nat, path: Seq<usize>, d: nat, idx: int)
        requires
            m.wf(h),
            h > 0,
            d < path.len(),
            c == path[d as int],
            0 <= c < m.edges@.len(),
        ensures
            forall|m2: Node<K, V>|
                m2.kvs@ == m.kvs@ && m2.edges@ == m.edges@.update(c, m2.edges@[c])
                    ==> #[trigger] m2.kv_pos(h, path, d, idx) == before(m.children(), m.kvs@, c).len()
                    + m2.edges@[c].kv_pos((h - 1) as nat, path, d + 1, idx),
            forall|m2: Node<K, V>|
                m2.kvs@ == m.kvs@ && m2.edges@ == m.edges@.update(c, m2.edges@[c])
                    && m2.edges@[c].valid_kv((h - 1) as nat, path, d + 1, idx)
                    ==> #[trigger] m2.valid_kv(h, path, d, idx),
    {
        assert forall|m2: Node<K, V>|
            m2.kvs@ == m.kvs@ && m2.edges@ == m.edges@.update(
                c,
                m2.edges@[c],
            ) implies #[trigger] m2.kv_pos(h, path, d, idx) == before(m.children(), m.kvs@, c).len()
            + m2.edges@[c].kv_pos((h - 1) as nat, path, d + 1, idx) by {
            Self::lemma_replace_child(m, m2, c);
        }
    }

    /// Any node that differs from `m` only in the pair at `idx`.
    proof fn lemma_replace_pair(m: Node<K, V>, h: nat, idx: int)
        requires
            m.wf(h),
            0 <= idx < m.kvs@.len(),
        ensures
            forall|m2: Node<K, V>|
                m2.edges == m.edges && m2.kvs@ == m.kvs@.update(idx, m2.kvs@[idx])
                    ==> #[trigger] m2.inorder() == m.inorder().update(
                    (if h == 0 {
                        idx
                    } else {
                        before(m.children(), m.kvs@, idx + 1).len() - 1
                    }),
                    m2.kvs@[idx],
                ),
            forall|m2: Node<K, V>|
                m2.edges == m.edges && m2.kvs@ == m.kvs@.update(idx, m2.kvs@[idx]) && m2.block
                    == m.block ==> #[trigger] m2.wf(h),
            forall|m2: Node<K, V>|
                m2.edges == m.edges && m2.kvs@ == m.kvs@.update(idx, m2.kvs@[idx])
                    ==> #[trigger] before(m2.children(), m2.kvs@, idx + 1).len() == before(
                    m.children(),
                    m.kvs@,
                    idx + 1,
                ).len(),
            h > 0 ==> m.inorder()[before(m.children(), m.kvs@, idx + 1).len() - 1] == m.kvs@[idx],
            h > 0 ==> before(m.children(), m.kvs@, idx + 1).len() >= 1,
    {
        if h > 0 {
            m.lemma_children();
            lemma_decompose(m.children(), m.kvs@, idx + 1);
        }
        assert forall|m2: Node<K, V>|
            m2.edges == m.edges && m2.kvs@ == m.kvs@.update(
                idx,
                m2.kvs@[idx],
            ) implies #[trigger] m2.inorder() == m.inorder().update(
            (if h == 0 {
                idx
            } else {
                before(m.children(), m.kvs@, idx + 1).len() - 1
            }),
            m2.kvs@[idx],
        ) by {
            if h == 0 {
                assert(m2.inorder() =~= m.inorder().update(idx, m2.kvs@[idx]));
            } else {
                m.lemma_children();
                m2.lemma_children();
                assert(m2.children() =~= m.children());
                let cs = m.children();
                lemma_decompose(cs, m.kvs@, idx + 1);
                lemma_decompose(cs, m2.kvs@, idx + 1);
                assert(m2.kvs@.take(idx) =~= m.kvs@.take(idx));
                assert(m2.kvs@.skip(idx + 1) =~= m.kvs@.skip(idx + 1));
                if idx + 1 < m.kvs@.len() {
                    assert(m2.kvs@.skip(idx + 2) =~= m.kvs@.skip(idx + 2));
                    assert(m2.kvs@[idx + 1] == m.kvs@[idx + 1]);
                }
                assert(after(cs, m2.kvs@, idx + 1) =~= after(cs, m.kvs@, idx + 1));
                assert(m2.inorder() =~= m.inorder().update(
                    before(cs, m.kvs@, idx + 1).len() - 1,
                    m2.kvs@[idx],
                ));
            }
        }
        assert forall|m2: Node<K, V>|
            m2.edges == m.edges && m2.kvs@ == m.kvs@.update(
                idx,
                m2.kvs@[idx],
            ) implies #[trigger] before(m2.children(), m2.kvs@, idx + 1).len() == before(
            m.children(),
            m.kvs@,
            idx + 1,
        ).len() by {
            m.lemma_children();
            m2.lemma_children();
            assert(m2.children() =~= m.children());
            assert(m2.kvs@.take(idx) =~= m.kvs@.take(idx));
        }
    }

    /// The pair at pair `idx` of the node that `path` leads to.
    pub fn kv_at(&self, h: Ghost<nat>, path: &Vec<usize>, d: usize, idx: usize) -> (r: &(K, V))
        requires
            self.wf(h@),
            self.valid_kv(h@, path@, d as nat, idx as int),
        ensures
            *r == self.inorder()[self.kv_pos(h@, path@, d as nat, idx as int)],
        decreases h@,
    {
        if d >= path.len() {
            proof {
                if h@ > 0 {
                    Self::lemma_replace_pair(*self, h@, idx as int);
                }
            }
            return &self.kvs[idx];
        }
        let c = path[d];
        proof {
            self.lemma_children();
            lemma_decompose(self.children(), self.kvs@, c as int);
            self.edges@[c as int].lemma_kv_pos((h@ - 1) as nat, path@, (d + 1) as nat, idx as int);
        }
        self.edges[c].kv_at(Ghost((h@ - 1) as nat), path, d + 1, idx)
    }

    /// The value of pair `idx` of the node that `path` leads to, for
    /// changing in place.
    pub fn val_mut_at(&mut self, h: Ghost<nat>, path: &Vec<usize>, d: usize, idx: usize) -> (r:
        &mut V)
        requires
            old(self).wf(h@),
            old(self).valid_kv(h@, path@, d as nat, idx as int),
        ensures
            final(self).wf(h@),
            final(self).block == old(self).block,
            final(self).kvs@.len() == old(self).kvs@.len(),
            final(self).valid_kv(h@, path@, d as nat, idx as int),
            final(self).kv_pos(h@, path@, d as nat, idx as int) == old(self).kv_pos(
                h@,
                path@,
                d as nat,
                idx as int,
            ),
            *r == old(self).inorder()[old(self).kv_pos(h@, path@, d as nat, idx as int)].1,
            final(self).inorder() == old(self).inorder().update(
                old(self).kv_pos(h@, path@, d as nat, idx as int),
                (old(self).inorder()[old(self).kv_pos(h@, path@, d as nat, idx as int)].0, *final(r)),
            ),
        decreases h@,
    {
        if d >= path.len() {
            proof {
                Self::lemma_replace_pair(*self, h@, idx as int);
            }
            let slot = &mut self.kvs[idx];
            return &mut slot.1;
        }
        let c = path[d];
        proof {
            Self::lemma_replace_child_all(*self, c as int, h@);
            Self::lemma_replace_child_kv(*self, c as int, h@, path@, d as nat, idx as int);
            let ch = self.edges@[c as int];
            ch.lemma_kv_pos((h@ - 1) as nat, path@, (d + 1) as nat, idx as int);
            let p = ch.kv_pos((h@ - 1) as nat, path@, (d + 1) as nat, idx as int);
            let b = before(self.children(), self.kvs@, c as int);
            let a = after(self.children(), self.kvs@, c as int);
            Self::lemma_update_in_child(b, ch.inorder(), a, p);
        }
        let child = &mut self.edges[c];
        child.val_mut_at(Ghost((h@ - 1) as nat), path, d + 1, idx)
    }

    /// Updating within the middle part of a concatenation.
    proof fn lemma_update_in_child(a: Seq<(K, V)>, x: Seq<(K, V)>, b: Seq<(K, V)>, p: int)
        requires
            0 <= p < x.len(),
        ensures
            forall|kv: (K, V)|
                a + #[trigger] x.update(p, kv) + b == (a + x + b).update(a.len() + p, kv),
            (a + x + b)[a.len() + p] == x[p],
    {
        assert forall|kv: (K, V)| a + #[trigger] x.update(p, kv) + b == (a + x + b).update(
            a.len() + p,
            kv,
        ) by {
            assert(a + x.update(p, kv) + b =~= (a + x + b).update(a.len() + p, kv));
        }
    }
}

/// The interleaving seen around two neighbouring children and the pair
/// between them.
pub proof fn lemma_decompose_pair<T>(cs: Seq<Seq<T>>, ks: Seq<T>, i: int)
    requires
        cs.len() == ks.len() + 1,
        0 <= i < ks.len(),
    ensures
        interleave(cs, ks) == before(cs, ks, i) + cs[i] + seq![ks[i]] + cs[i + 1] + after(
            cs,
            ks,
            i + 1,
        ),
{
    lemma_decompose(cs, ks, i);
    let tc = cs.skip(i + 1);
    let tk = ks.skip(i + 1);
    if i + 1 < ks.len() {
        assert(tc.drop_first() =~= cs.skip(i + 2));
        assert(tk.drop_first() =~= ks.skip(i + 2));
        assert(interleave(tc, tk) == tc[0] + seq![tk[0]] + interleave(tc.drop_first(), tk.drop_first()));
    } else {
        assert(tk.len() == 0);
    }
    assert(interleave(cs, ks) =~= before(cs, ks, i) + cs[i] + seq![ks[i]] + cs[i + 1] + after(
        cs,
        ks,
        i + 1,
    ));
}

impl<K, V> Node<K, V> {
    /// `x` is `y` with one more pair (and child, if internal) at the end.
    proof fn lemma_snoc(x: Node<K, V>, y: Node<K, V>)
        requires
            x.kvs@.len() >= 1,
            y.kvs@ == x.kvs@.drop_last(),
            x.edges@.len() == 0 ==> y.edges@.len() == 0,
            x.edges@.len() > 0 ==> x.edges@.len() == x.kvs@.len() + 1 && y.edges@
                == x.edges@.drop_last(),
        ensures
            x.edges@.len() == 0 ==> x.inorder() == y.inorder() + seq![x.kvs@.last()],
            x.edges@.len() > 0 ==> x.inorder() == y.inorder() + seq![x.kvs@.last()]
                + x.edges@.last().inorder(),
    {
        if x.edges@.len() == 0 {
            assert(x.inorder() =~= y.inorder() + seq![x.kvs@.last()]);
        } else {
            x.lemma_children();
            y.lemma_children();
            let cs = x.children();
            let ks = x.kvs@;
            let k = ks.len() as int;
            lemma_interleave_split(cs, ks, k - 1);
            assert(cs.take(k) =~= y.children());
            assert(ks.take(k - 1) =~= y.kvs@);
            assert(cs.skip(k) =~= seq![x.edges@.last().inorder()]);
            assert(ks.skip(k) =~= Seq::<(K, V)>::empty());
            if y.kvs@.len() == 0 {
                assert(y.inorder() == y.children()[0]);
            }
        }
    }

    /// `x` is `y` with one more pair (and child, if internal) at the front.
    proof fn lemma_cons(x: Node<K, V>, y: Node<K, V>)
        requires
            x.kvs@.len() >= 1,
            y.kvs@ == x.kvs@.drop_first(),
            x.edges@.len() == 0 ==> y.edges@.len() == 0,
            x.edges@.len() > 0 ==> x.edges@.len() == x.kvs@.len() + 1 && y.edges@
                == x.edges@.drop_first(),
        ensures
            x.edges@.len() == 0 ==> x.inorder() == seq![x.kvs@[0]] + y.inorder(),
            x.edges@.len() > 0 ==> x.inorder() == x.edges@[0].inorder() + seq![x.kvs@[0]]
                + y.inorder(),
    {
        if x.edges@.len() == 0 {
            assert(x.inorder() =~= seq![x.kvs@[0]] + y.inorder());
        } else {
            x.lemma_children();
            y.lemma_children();
            let cs = x.children();
            assert(cs.drop_first() =~= y.children());
            if y.kvs@.len() == 0 {
                assert(y.inorder() == y.children()[0]);
            }
        }
    }

    /// A node made of `l`, a middle pair, and `r`.
    proof fn lemma_concat(x: Node<K, V>, l: Node<K, V>, sep: (K, V), r: Node<K, V>)
        requires
            x.kvs@ == l.kvs@ + seq![sep] + r.kvs@,
            x.edges@ == l.edges@ + r.edges@,
            l.edges@.len() == 0 <==> r.edges@.len() == 0,
            l.edges@.len() > 0 ==> l.edges@.len() == l.kvs@.len() + 1 && r.edges@.len()
                == r.kvs@.len() + 1,
        ensures
            x.inorder() == l.inorder() + seq![sep] + r.inorder(),
    {
        if l.edges@.len() == 0 {
            assert(x.inorder() =~= l.inorder() + seq![sep] + r.inorder());
        } else {
            x.lemma_children();
            l.lemma_children();
            r.lemma_children();
            let cs = x.children();
            let ks = x.kvs@;
            let m = l.kvs@.len() as int;
            lemma_interleave_split(cs, ks, m);
            assert(cs.take(m + 1) =~= l.children());
            assert(ks.take(m) =~= l.kvs@);
            assert(cs.skip(m + 1) =~= r.children());
            assert(ks.skip(m + 1) =~= r.kvs@);
            if l.kvs@.len() == 0 {
                assert(l.inorder() == l.children()[0]);
            }
            if r.kvs@.len() == 0 {
                assert(r.inorder() == r.children()[0]);
            }
        }
    }

    /// Children `i`, `i + 1` and the pair between them replaced by others
    /// that read the same in order.
    proof fn lemma_swap_pair(p: Node<K, V>, p2: Node<K, V>, i: int)
        requires
            p.edges@.len() == p.kvs@.len() + 1,
            0 <= i < p.kvs@.len(),
            p2.kvs@ == p.kvs@.update(i, p2.kvs@[i]),
            p2.edges@ == p.edges@.update(i, p2.edges@[i]).update(i + 1, p2.edges@[i + 1]),
            p2.edges@[i].inorder() + seq![p2.kvs@[i]] + p2.edges@[i + 1].inorder()
                == p.edges@[i].inorder() + seq![p.kvs@[i]] + p.edges@[i + 1].inorder(),
        ensures
            p2.inorder() == p.inorder(),
    {
        p.lemma_children();
        p2.lemma_children();
        let cs = p.children();
        let cs2 = p2.children();
        lemma_decompose_pair(cs, p.kvs@, i);
        lemma_decompose_pair(cs2, p2.kvs@, i);
        assert(cs2.take(i) =~= cs.take(i));
        assert(p2.kvs@.take(i) =~= p.kvs@.take(i));
        if i > 0 {
            assert(p2.kvs@.take(i - 1) =~= p.kvs@.take(i - 1));
        }
        assert(before(cs2, p2.kvs@, i) == before(cs, p.kvs@, i));
        if i + 1 < p.kvs@.len() {
            assert(cs2.skip(i + 2) =~= cs.skip(i + 2));
            assert(p2.kvs@.skip(i + 2) =~= p.kvs@.skip(i + 2));
        }
        assert(after(cs2, p2.kvs@, i + 1) == after(cs, p.kvs@, i + 1));
        let b = before(cs, p.kvs@, i);
        let a = after(cs, p.kvs@, i + 1);
        let mid2 = cs2[i] + seq![p2.kvs@[i]] + cs2[i + 1];
        let mid = cs[i] + seq![p.kvs@[i]] + cs[i + 1];
        assert(mid2 == mid);
        assert(b + cs2[i] + seq![p2.kvs@[i]] + cs2[i + 1] + a =~= b + mid2 + a);
        assert(b + cs[i] + seq![p.kvs@[i]] + cs[i + 1] + a =~= b + mid + a);
    }

    /// Children `i`, `i + 1` and the pair between them merged into one
    /// child.
    proof fn lemma_merge_pair(p: Node<K, V>, p2: Node<K, V>, i: int)
        requires
            p.edges@.len() == p.kvs@.len() + 1,
            0 <= i < p.kvs@.len(),
            p2.kvs@ == p.kvs@.remove(i),
            p2.edges@ == p.edges@.update(i, p2.edges@[i]).remove(i + 1),
            p2.edges@[i].inorder() == p.edges@[i].inorder() + seq![p.kvs@[i]]
                + p.edges@[i + 1].inorder(),
        ensures
            p2.inorder() == p.inorder(),
    {
        p.lemma_children();
        p2.lemma_children();
        let cs = p.children();
        let cs2 = p2.children();
        lemma_decompose_pair(cs, p.kvs@, i);
        lemma_decompose(cs2, p2.kvs@, i);
        assert(cs2.take(i) =~= cs.take(i));
        if i > 0 {
            assert(p2.kvs@.take(i - 1) =~= p.kvs@.take(i - 1));
        }
        assert(before(cs2, p2.kvs@, i) == before(cs, p.kvs@, i));
        if i + 1 < p.kvs@.len() {
            assert(cs2.skip(i + 1) =~= cs.skip(i + 2));
            assert(p2.kvs@.skip(i + 1) =~= p.kvs@.skip(i + 2));
        }
        assert(after(cs2, p2.kvs@, i) == after(cs, p.kvs@, i + 1));
        if p2.edges@.len() == 1 {
            assert(p2.inorder() == cs2[0]);
        }
        assert(p2.inorder() =~= p.inorder());
    }
}

impl<K, V> Node<K, V> {
    /// The shape every node of height `h` has, whatever it holds.
    pub open spec fn shaped(self, h: nat) -> bool {
        if h == 0 {
            self.edges@.len() == 0
        } else {
            self.edges@.len() == self.kvs@.len() + 1
        }
    }

    proof fn lemma_wf_shape(self, h: nat)
        requires
            self.wf(h),
        ensures
            self.shaped(h),
            self.kvs@.len() <= CAPACITY,
            h > 0 ==> forall|j: int|
                0 <= j < self.edges@.len() ==> (#[trigger] self.edges@[j]).wf((h - 1) as nat)
                    && self.edges@[j].kvs@.len() >= MIN_LEN,
    {
    }

    /// A node whose parts meet the conditions of height `h`.
    proof fn lemma_wf_intro(self, h: nat)
        requires
            self.kvs@.len() <= CAPACITY,
            self.block.layout == node_layout_spec::<K, V>(),
            self.shaped(h),
            h > 0 ==> forall|j: int|
                0 <= j < self.edges@.len() ==> (#[trigger] self.edges@[j]).wf((h - 1) as nat)
                    && self.edges@[j].kvs@.len() >= MIN_LEN,
        ensures
            self.wf(h),
    {
    }

    fn pop_back(&mut self, internal: bool) -> (r: ((K, V), Option<Node<K, V>>))
        requires
            old(self).kvs@.len() >= 1,
            internal ==> old(self).edges@.len() == old(self).kvs@.len() + 1,
        ensures
            final(self).kvs@ == old(self).kvs@.drop_last(),
            r.0 == old(self).kvs@.last(),
            internal ==> r.1 == Some(old(self).edges@.last()) && final(self).edges@ == old(
                self,
            ).edges@.drop_last(),
            !internal ==> r.1 is None && final(self).edges@ == old(self).edges@,
            final(self).block == old(self).block,
    {
        let kv = self.kvs.pop().unwrap();
        if internal {
            let e = self.edges.pop().unwrap();
            (kv, Some(e))
        } else {
            (kv, None)
        }
    }

    fn pop_front(&mut self, internal: bool) -> (r: ((K, V), Option<Node<K, V>>))
        requires
            old(self).kvs@.len() >= 1,
            internal ==> old(self).edges@.len() == old(self).kvs@.len() + 1,
        ensures
            final(self).kvs@ == old(self).kvs@.drop_first(),
            r.0 == old(self).kvs@[0],
            internal ==> r.1 == Some(old(self).edges@[0]) && final(self).edges@ == old(
                self,
            ).edges@.drop_first(),
            !internal ==> r.1 is None && final(self).edges@ == old(self).edges@,
            final(self).block == old(self).block,
    {
        let kv = self.kvs.remove(0);
        if internal {
            let e = self.edges.remove(0);
            (kv, Some(e))
        } else {
            (kv, None)
        }
    }

    fn push_front(&mut self, kv: (K, V), edge: Option<Node<K, V>>)
        ensures
            final(self).kvs@ == seq![kv] + old(self).kvs@,
            edge matches Some(e) ==> final(self).edges@ == seq![e] + old(self).edges@,
            edge is None ==> final(self).edges@ == old(self).edges@,
            final(self).block == old(self).block,
    {
        self.kvs.insert(0, kv);
        if let Some(e) = edge {
            self.edges.insert(0, e);
        }
        proof {
            assert(self.kvs@ =~= seq![kv] + old(self).kvs@);
            if edge is Some {
                assert(self.edges@ =~= seq![edge->Some_0] + old(self).edges@);
            }
        }
    }

    fn push_back(&mut self, kv: (K, V), edge: Option<Node<K, V>>)
        ensures
            final(self).kvs@ == old(self).kvs@.push(kv),
            edge matches Some(e) ==> final(self).edges@ == old(self).edges@.push(e),
            edge is None ==> final(self).edges@ == old(self).edges@,
            final(self).block == old(self).block,
    {
        self.kvs.push(kv);
        if let Some(e) = edge {
            self.edges.push(e);
        }
    }

    fn absorb(&mut self, sep: (K, V), mut kvs: Vec<(K, V)>, mut edges: Vec<Node<K, V>>)
        ensures
            final(self).kvs@ == old(self).kvs@ + seq![sep] + kvs@,
            final(self).edges@ == old(self).edges@ + edges@,
            final(self).block == old(self).block,
    {
        self.kvs.push(sep);
        self.kvs.append(&mut kvs);
        self.edges.append(&mut edges);
    }

    /// Merges children `i` and `i + 1` with the pair between them into
    /// child `i`, and hands the right child's block back to `alloc`.
    fn merge_children<A: Allocator>(&mut self, h: Ghost<nat>, height: usize, i: usize, alloc: &A)
        requires
            height == h@,
            h@ > 0,
            old(self).shaped(h@),
            0 <= i < old(self).kvs@.len(),
            forall|j: int|
                0 <= j < old(self).edges@.len() ==> (#[trigger] old(self).edges@[j]).wf(
                    (h@ - 1) as nat,
                ),
            old(self).edges@[i as int].kvs@.len() + old(self).edges@[i as int + 1].kvs@.len() + 1
                <= CAPACITY,
        ensures
            final(self).shaped(h@),
            final(self).kvs@ == old(self).kvs@.remove(i as int),
            final(self).edges@ == old(self).edges@.update(i as int, final(self).edges@[i as int]).remove(
                i as int + 1,
            ),
            final(self).edges@[i as int].wf((h@ - 1) as nat),
            final(self).edges@[i as int].kvs@.len() == old(self).edges@[i as int].kvs@.len()
                + old(self).edges@[i as int + 1].kvs@.len() + 1,
            final(self).inorder() == old(self).inorder(),
            final(self).block == old(self).block,
    {
        let ghost p0 = *self;
        let n = self.edges.len();
        assert(i + 1 < n);
        let right = self.edges.remove(i + 1);
        let sep = self.kvs.remove(i);
        let ghost l0 = self.edges@[i as int];
        let Node { kvs: rkvs, edges: redges, block: rblock } = right;
        self.edges[i].absorb(sep, rkvs, redges);
        alloc.deallocate(rblock, rblock.layout);
        proof {
            let l1 = self.edges@[i as int];
            let hc = (h@ - 1) as nat;
            l0.lemma_wf_shape(hc);
            right.lemma_wf_shape(hc);
            Self::lemma_concat(l1, l0, sep, right);
            assert forall|j: int| 0 <= j < l1.edges@.len() implies (#[trigger] l1.edges@[j]).wf(
                (hc - 1) as nat,
            ) && l1.edges@[j].kvs@.len() >= MIN_LEN by {
                if j < l0.edges@.len() {
                    assert(l1.edges@[j] == l0.edges@[j]);
                } else {
                    assert(l1.edges@[j] == right.edges@[j - l0.edges@.len()]);
                }
            }
            l1.lemma_wf_intro(hc);
            assert(self.edges@ =~= p0.edges@.update(i as int, l1).remove(i as int + 1));
            Self::lemma_merge_pair(p0, *self, i as int);
        }
    }

    fn steal_left(&mut self, h: Ghost<nat>, height: usize, c: usize)
        requires
            height == h@,
            h@ > 0,
            old(self).kvs@.len() >= 1,
            old(self).kvs@.len() <= CAPACITY,
            old(self).shaped(h@),
            old(self).block.layout == node_layout_spec::<K, V>(),
            0 <= c < old(self).edges@.len(),
            forall|j: int|
                0 <= j < old(self).edges@.len() ==> (#[trigger] old(self).edges@[j]).wf(
                    (h@ - 1) as nat,
                ),
            forall|j: int|
                0 <= j < old(self).edges@.len() && j != c ==> (#[trigger] old(
                    self,
                ).edges@[j]).kvs@.len() >= MIN_LEN,
            old(self).edges@[c as int].kvs@.len() + 1 == MIN_LEN,
            c > 0,
            old(self).edges@[c - 1].kvs@.len() > MIN_LEN,
        ensures
            final(self).wf(h@),
            final(self).inorder() == old(self).inorder(),
            final(self).block == old(self).block,
            final(self).kvs@.len() == old(self).kvs@.len(),
    {
        let ghost p0 = *self;
        let ghost hc = (h@ - 1) as nat;
        let internal = height > 1;
        proof {
            assert forall|j: int| 0 <= j < p0.edges@.len() implies (#[trigger] p0.edges@[j]).shaped(hc) by {
                p0.edges@[j].lemma_wf_shape(hc);
            }
        }
        let (lk, le) = self.edges[c - 1].pop_back(internal);
        let sep = self.kvs.remove(c - 1);
        self.kvs.insert(c - 1, lk);
        self.edges[c].push_front(sep, le);
        proof {
            let l0 = p0.edges@[c - 1];
            let ch0 = p0.edges@[c as int];
            let l1 = self.edges@[c - 1];
            let ch1 = self.edges@[c as int];
            l0.lemma_wf_shape(hc);
            ch0.lemma_wf_shape(hc);
            Self::lemma_snoc(l0, l1);
            assert(ch1.kvs@.drop_first() =~= ch0.kvs@);
            if internal {
                assert(ch1.edges@.drop_first() =~= ch0.edges@);
            }
            Self::lemma_cons(ch1, ch0);
            if internal {
                assert(l1.inorder() + seq![lk] + ch1.inorder() =~= l0.inorder() + seq![sep]
                    + ch0.inorder());
            } else {
                assert(l1.inorder() + seq![lk] + ch1.inorder() =~= l0.inorder() + seq![sep]
                    + ch0.inorder());
            }
            assert(self.kvs@ =~= p0.kvs@.update(c - 1, lk));
            assert(self.edges@ =~= p0.edges@.update(c - 1, l1).update(c as int, ch1));
            Self::lemma_swap_pair(p0, *self, c - 1);
            if hc > 0 {
                assert forall|j: int| 0 <= j < l1.edges@.len() implies (#[trigger] l1.edges@[
                    j]).wf((hc - 1) as nat) && l1.edges@[j].kvs@.len() >= MIN_LEN by {
                    assert(l1.edges@[j] == l0.edges@[j]);
                }
                assert forall|j: int| 0 <= j < ch1.edges@.len() implies (#[trigger] ch1.edges@[
                    j]).wf((hc - 1) as nat) && ch1.edges@[j].kvs@.len() >= MIN_LEN by {
                    if j == 0 {
                        assert(ch1.edges@[0] == l0.edges@.last());
                    } else {
                        assert(ch1.edges@[j] == ch0.edges@[j - 1]);
                    }
                }
            }
            l1.lemma_wf_intro(hc);
            ch1.lemma_wf_intro(hc);
            assert forall|j: int| 0 <= j < self.edges@.len() implies (#[trigger] self.edges@[
                j]).wf(hc) && self.edges@[j].kvs@.len() >= MIN_LEN by {
                if j != c - 1 && j != c {
                    assert(self.edges@[j] == p0.edges@[j]);
                }
            }
            self.lemma_wf_intro(h@);
        }
    }

    fn steal_right(&mut self, h: Ghost<nat>, height: usize, c: usize)
        requires
            height == h@,
            h@ > 0,
            old(self).kvs@.len() >= 1,
            old(self).kvs@.len() <= CAPACITY,
            old(self).shaped(h@),
            old(self).block.layout == node_layout_spec::<K, V>(),
            0 <= c < old(self).edges@.len(),
            forall|j: int|
                0 <= j < old(self).edges@.len() ==> (#[trigger] old(self).edges@[j]).wf(
                    (h@ - 1) as nat,
                ),
            forall|j: int|
                0 <= j < old(self).edges@.len() && j != c ==> (#[trigger] old(
                    self,
                ).edges@[j]).kvs@.len() >= MIN_LEN,
            old(self).edges@[c as int].kvs@.len() + 1 == MIN_LEN,
            c < old(self).kvs@.len(),
            old(self).edges@[c + 1].kvs@.len() > MIN_LEN,
        ensures
            final(self).wf(h@),
            final(self).inorder() == old(self).inorder(),
            final(self).block == old(self).block,
            final(self).kvs@.len() == old(self).kvs@.len(),
    {
        let ghost p0 = *self;
        let ghost hc = (h@ - 1) as nat;
        let internal = height > 1;
        proof {
            assert forall|j: int| 0 <= j < p0.edges@.len() implies (#[trigger] p0.edges@[j]).shaped(hc) by {
                p0.edges@[j].lemma_wf_shape(hc);
            }
        }
        let (rk, re) = self.edges[c + 1].pop_front(internal);
        let sep = self.kvs.remove(c);
        self.kvs.insert(c, rk);
        self.edges[c].push_back(sep, re);
        proof {
            let r0 = p0.edges@[c + 1];
            let ch0 = p0.edges@[c as int];
            let r1 = self.edges@[c + 1];
            let ch1 = self.edges@[c as int];
            r0.lemma_wf_shape(hc);
            ch0.lemma_wf_shape(hc);
            Self::lemma_cons(r0, r1);
            assert(ch1.kvs@.drop_last() =~= ch0.kvs@);
            if internal {
                assert(ch1.edges@.drop_last() =~= ch0.edges@);
            }
            Self::lemma_snoc(ch1, ch0);
            assert(ch1.inorder() + seq![rk] + r1.inorder() =~= ch0.inorder() + seq![sep]
                + r0.inorder());
            assert(self.kvs@ =~= p0.kvs@.update(c as int, rk));
            assert(self.edges@ =~= p0.edges@.update(c as int, ch1).update(c + 1, r1));
            Self::lemma_swap_pair(p0, *self, c as int);
            if hc > 0 {
                assert forall|j: int| 0 <= j < r1.edges@.len() implies (#[trigger] r1.edges@[
                    j]).wf((hc - 1) as nat) && r1.edges@[j].kvs@.len() >= MIN_LEN by {
                    assert(r1.edges@[j] == r0.edges@[j + 1]);
                }
                assert forall|j: int| 0 <= j < ch1.edges@.len() implies (#[trigger] ch1.edges@[
                    j]).wf((hc - 1) as nat) && ch1.edges@[j].kvs@.len() >= MIN_LEN by {
                    if j < ch0.edges@.len() {
                        assert(ch1.edges@[j] == ch0.edges@[j]);
                    } else {
                        assert(ch1.edges@[j] == r0.edges@[0]);
                    }
                }
            }
            r1.lemma_wf_intro(hc);
            ch1.lemma_wf_intro(hc);
            assert forall|j: int| 0 <= j < self.edges@.len() implies (#[trigger] self.edges@[
                j]).wf(hc) && self.edges@[j].kvs@.len() >= MIN_LEN by {
                if j != c + 1 && j != c {
                    assert(self.edges@[j] == p0.edges@[j]);
                }
            }
            self.lemma_wf_intro(h@);
        }
    }

    /// Brings child `c`, which may be one pair short of the minimum fill,
    /// back to it: by moving a pair over from a sibling that can spare one,
    /// through the pair between them, or else by merging with a sibling.
    fn fix_child<A: Allocator>(&mut self, h: Ghost<nat>, height: usize, c: usize, alloc: &A)
        requires
            height == h@,
            h@ > 0,
            old(self).kvs@.len() >= 1,
            old(self).kvs@.len() <= CAPACITY,
            old(self).shaped(h@),
            old(self).block.layout == node_layout_spec::<K, V>(),
            0 <= c < old(self).edges@.len(),
            forall|j: int|
                0 <= j < old(self).edges@.len() ==> (#[trigger] old(self).edges@[j]).wf(
                    (h@ - 1) as nat,
                ),
            forall|j: int|
                0 <= j < old(self).edges@.len() && j != c ==> (#[trigger] old(
                    self,
                ).edges@[j]).kvs@.len() >= MIN_LEN,
            old(self).edges@[c as int].kvs@.len() + 1 >= MIN_LEN,
        ensures
            final(self).wf(h@),
            final(self).inorder() == old(self).inorder(),
            final(self).block == old(self).block,
            final(self).kvs@.len() + 1 >= old(self).kvs@.len(),
    {
        let ghost p0 = *self;
        let ghost hc = (h@ - 1) as nat;
        if self.edges[c].kvs.len() >= MIN_LEN {
            proof {
                self.lemma_wf_intro(h@);
            }
            return ;
        }
        if c > 0 && self.edges[c - 1].kvs.len() > MIN_LEN {
            self.steal_left(h, height, c);
        } else if c < self.kvs.len() && self.edges[c + 1].kvs.len() > MIN_LEN {
            self.steal_right(h, height, c);
        } else {
            let i = if c > 0 {
                c - 1
            } else {
                c
            };
            self.merge_children(h, height, i, alloc);
            proof {
                assert forall|j: int| 0 <= j < self.edges@.len() implies (#[trigger] self.edges@[
                    j]).wf(hc) && self.edges@[j].kvs@.len() >= MIN_LEN by {
                    if j < i {
                        assert(self.edges@[j] == p0.edges@[j]);
                    } else if j > i {
                        assert(self.edges@[j] == p0.edges@[j + 1]);
                    }
                }
                self.lemma_wf_intro(h@);
            }
        }
    }
}

/// What comes before child `i + 1`: what comes before child `i`, that
/// child, and the pair after it.
pub proof fn lemma_before_next<T>(cs: Seq<Seq<T>>, ks: Seq<T>, i: int)
    requires
        cs.len() == ks.len() + 1,
        0 <= i < ks.len(),
    ensures
        before(cs, ks, i + 1) == before(cs, ks, i) + cs[i] + seq![ks[i]],
{
    let pcs = cs.take(i + 1);
    let pks = ks.take(i);
    lemma_decompose(pcs, pks, i);
    assert(pcs.take(i) =~= cs.take(i));
    if i > 0 {
        assert(pks.take(i - 1) =~= ks.take(i - 1));
    }
    assert(before(pcs, pks, i) == before(cs, ks, i));
    assert(after(pcs, pks, i) =~= Seq::<T>::empty());
    assert(interleave(pcs, pks) =~= before(cs, ks, i) + cs[i]);
}

impl<K, V> Node<K, V> {
    /// A node that differs from `p` in child `i` and the pair after it.
    proof fn lemma_pair_view(p: Node<K, V>, p2: Node<K, V>, i: int)
        requires
            p.edges@.len() == p.kvs@.len() + 1,
            0 <= i < p.kvs@.len(),
            p2.kvs@ == p.kvs@.update(i, p2.kvs@[i]),
            p2.edges@ == p.edges@.update(i, p2.edges@[i]),
        ensures
            p.inorder() == before(p.children(), p.kvs@, i) + p.edges@[i].inorder() + seq![
                p.kvs@[i]] + p.edges@[i + 1].inorder() + after(p.children(), p.kvs@, i + 1),
            p2.inorder() == before(p.children(), p.kvs@, i) + p2.edges@[i].inorder() + seq![
                p2.kvs@[i]] + p.edges@[i + 1].inorder() + after(p.children(), p.kvs@, i + 1),
            before(p.children(), p.kvs@, i + 1) == before(p.children(), p.kvs@, i)
                + p.edges@[i].inorder() + seq![p.kvs@[i]],
    {
        p.lemma_children();
        p2.lemma_children();
        let cs = p.children();
        let cs2 = p2.children();
        lemma_decompose_pair(cs, p.kvs@, i);
        lemma_decompose_pair(cs2, p2.kvs@, i);
        lemma_before_next(cs, p.kvs@, i);
        assert(cs2.take(i) =~= cs.take(i));
        if i > 0 {
            assert(p2.kvs@.take(i - 1) =~= p.kvs@.take(i - 1));
        }
        assert(before(cs2, p2.kvs@, i) == before(cs, p.kvs@, i));
        if i + 1 < p.kvs@.len() {
            assert(cs2.skip(i + 2) =~= cs.skip(i + 2));
            assert(p2.kvs@.skip(i + 2) =~= p.kvs@.skip(i + 2));
        }
        assert(after(cs2, p2.kvs@, i + 1) == after(cs, p.kvs@, i + 1));
    }

    /// Removes the last pair of the subtree.
    fn remove_last<A: Allocator>(&mut self, h: Ghost<nat>, height: usize, alloc: &A) -> (r: (K, V))
        requires
            old(self).wf(h@),
            height == h@,
            old(self).kvs@.len() >= 1,
        ensures
            final(self).wf(h@),
            final(self).block == old(self).block,
            final(self).kvs@.len() + 1 >= old(self).kvs@.len(),
            old(self).inorder().len() >= 1,
            r == old(self).inorder().last(),
            final(self).inorder() == old(self).inorder().drop_last(),
        decreases height,
    {
        if height == 0 {
            return self.kvs.pop().unwrap();
        }
        let ghost p0 = *self;
        let c = self.kvs.len();
        proof {
            p0.lemma_wf_shape(h@);
            p0.edges@[c as int].lemma_wf_shape((h@ - 1) as nat);
        }
        let r = self.edges[c].remove_last(Ghost((h@ - 1) as nat), height - 1, alloc);
        proof {
            let ch = p0.edges@[c as int];
            let ch1 = self.edges@[c as int];
            assert(self.edges@ == p0.edges@.update(c as int, ch1));
            Self::lemma_replace_child(p0, *self, c as int);
            assert(after(p0.children(), p0.kvs@, c as int) =~= Seq::<(K, V)>::empty());
            assert(self.inorder() =~= p0.inorder().drop_last());
        }
        self.fix_child(h, height, c, alloc);
        r
    }

    /// Removes this internal node's pair `idx`: the greatest pair of the
    /// child before it takes its place.
    fn remove_kv_internal<A: Allocator>(&mut self, h: Ghost<nat>, height: usize, idx: usize, alloc: &A) -> (r: (K, V))
        requires
            old(self).wf(h@),
            height == h@,
            h@ > 0,
            0 <= idx < old(self).kvs@.len(),
        ensures
            final(self).wf(h@),
            final(self).block == old(self).block,
            final(self).kvs@.len() + 1 >= old(self).kvs@.len(),
            r == old(self).inorder()[before(old(self).children(), old(self).kvs@, idx + 1).len() - 1],
            final(self).inorder() == old(self).inorder().remove(
                before(old(self).children(), old(self).kvs@, idx + 1).len() - 1,
            ),
    {
        let ghost p0 = *self;
        proof {
            p0.lemma_wf_shape(h@);
        }
        proof {
            p0.edges@[idx as int].lemma_wf_shape((h@ - 1) as nat);
        }
        let pred = self.edges[idx].remove_last(Ghost((h@ - 1) as nat), height - 1, alloc);
        let old_kv = self.kvs.remove(idx);
        self.kvs.insert(idx, pred);
        proof {
            let ch = p0.edges@[idx as int];
            let ch1 = self.edges@[idx as int];
            assert(self.kvs@ =~= p0.kvs@.update(idx as int, pred));
            assert(self.edges@ == p0.edges@.update(idx as int, ch1));
            Self::lemma_pair_view(p0, *self, idx as int);
            let b = before(p0.children(), p0.kvs@, idx as int);
            let a = after(p0.children(), p0.kvs@, idx as int + 1);
            let x = ch1.inorder();
            let y = p0.edges@[idx as int + 1].inorder();
            assert(ch.inorder() =~= x + seq![pred]);
            assert(p0.inorder() =~= b + x + seq![pred] + seq![old_kv] + y + a);
            assert(self.inorder() =~= b + x + seq![pred] + y + a);
            assert(self.inorder() =~= p0.inorder().remove((b.len() + x.len() + 1) as int));
        }
        self.fix_child(h, height, idx, alloc);
        old_kv
    }

    /// Removes pair `idx` of the node that `path` leads to, rebalancing on
    /// the way back up. Blocks of nodes merged away go back to `alloc`.
    #[verifier::rlimit(40)]
    pub fn remove_at<A: Allocator>(
        &mut self,
        h: Ghost<nat>,
        height: usize,
        path: &Vec<usize>,
        d: usize,
        idx: usize,
        alloc: &A,
    ) -> (r: (K, V))
        requires
            old(self).wf(h@),
            height == h@,
            old(self).valid_kv(h@, path@, d as nat, idx as int),
            height > 0 ==> old(self).kvs@.len() >= 1,
        ensures
            final(self).wf(h@),
            final(self).block == old(self).block,
            final(self).kvs@.len() + 1 >= old(self).kvs@.len(),
            0 <= old(self).kv_pos(h@, path@, d as nat, idx as int) < old(self).inorder().len(),
            r == old(self).inorder()[old(self).kv_pos(h@, path@, d as nat, idx as int)],
            final(self).inorder() == old(self).inorder().remove(
                old(self).kv_pos(h@, path@, d as nat, idx as int),
            ),
        decreases height,
    {
        let ghost p0 = *self;
        proof {
            p0.lemma_kv_pos(h@, path@, d as nat, idx as int);
            p0.lemma_wf_shape(h@);
        }
        if d >= path.len() {
            if height == 0 {
                let r = self.kvs.remove(idx);
                return r;
            }
            return self.remove_kv_internal(h, height, idx, alloc);
        }
        let c = path[d];
        proof {
            p0.edges@[c as int].lemma_wf_shape((h@ - 1) as nat);
            p0.edges@[c as int].lemma_kv_pos((h@ - 1) as nat, path@, (d + 1) as nat, idx as int);
        }
        let r = self.edges[c].remove_at(Ghost((h@ - 1) as nat), height - 1, path, d + 1, idx, alloc);
        proof {
            let ch = p0.edges@[c as int];
            let ch1 = self.edges@[c as int];
            assert(self.edges@ == p0.edges@.update(c as int, ch1));
            Self::lemma_replace_child(p0, *self, c as int);
            let b = before(p0.children(), p0.kvs@, c as int);
            let a = after(p0.children(), p0.kvs@, c as int);
            let pc = ch.kv_pos((h@ - 1) as nat, path@, (d + 1) as nat, idx as int);
            assert(self.inorder() =~= p0.inorder().remove(b.len() as int + pc));
            assert(p0.inorder()[b.len() as int + pc] == ch.inorder()[pc]);
        }
        self.fix_child(h, height, c, alloc);
        r
    }
}

impl<K, V> Node<K, V> {
    /// How many new nodes an insertion at the gap reached from the root
    /// takes: the full run ending at the leaf, plus a new root when the run
    /// reaches the root itself.
    pub open spec fn blocks_needed(self, h: nat, path: Seq<usize>, idx: int) -> nat {
        if self.full_path(h, path, 0, next_index(path, 0, idx), idx) {
            h + 2
        } else {
            self.needed(h, path, 0, next_index(path, 0, idx), idx)
        }
    }

    /// A gap reached from the root by `path` and `idx`.
    pub open spec fn valid_gap(self, h: nat, path: Seq<usize>, idx: int) -> bool {
        &&& path.len() == h
        &&& self.valid_edge(h, path, 0, next_index(path, 0, idx), idx)
    }

    /// In-order position of the gap reached from the root.
    pub open spec fn gap_pos(self, h: nat, path: Seq<usize>, idx: int) -> int {
        self.edge_pos(h, path, 0, next_index(path, 0, idx), idx)
    }

    /// Whether the way below is full, and how many new nodes it needs.
    fn path_info(&self, h: Ghost<nat>, height: usize, path: &Vec<usize>, d: usize, cur: usize, idx: usize) -> (r: (
        bool,
        usize,
    ))
        requires
            self.wf(h@),
            height == h@,
            d + height == path.len(),
            self.valid_edge(h@, path@, d as nat, cur as int, idx as int),
        ensures
            r.0 == self.full_path(h@, path@, d as nat, cur as int, idx as int),
            r.1 == self.needed(h@, path@, d as nat, cur as int, idx as int),
        decreases height,
    {
        let full = self.kvs.len() == CAPACITY;
        if height == 0 {
            return (full, 0);
        }
        let e = if d + 1 < path.len() {
            path[d + 1]
        } else {
            idx
        };
        let (child_full, child_needed) = self.edges[cur].path_info(
            Ghost((h@ - 1) as nat),
            height - 1,
            path,
            d + 1,
            e,
            idx,
        );
        (full && child_full, if child_full {
            height
        } else {
            child_needed
        })
    }

    /// How many new nodes inserting at the gap needs.
    pub fn count_blocks(&self, h: Ghost<nat>, height: usize, path: &Vec<usize>, idx: usize) -> (r: usize)
        requires
            self.wf(h@),
            height == h@,
            height + 2 <= usize::MAX,
            self.valid_gap(h@, path@, idx as int),
        ensures
            r == self.blocks_needed(h@, path@, idx as int),
    {
        let cur = if 0 < path.len() {
            path[0]
        } else {
            idx
        };
        let (full, needed) = self.path_info(h, height, path, 0, cur, idx);
        if full {
            height + 2
        } else {
            needed
        }
    }

    /// Inserts `(key, value)` at the gap reached from the root `self`,
    /// using exactly the pre-obtained `blocks`. When the full run reaches
    /// the root, the root is split and a new root holding its middle pair is
    /// installed above the halves: the tree grows by one level (`r.1`).
    pub fn insert_from_root(
        &mut self,
        h: Ghost<nat>,
        height: usize,
        path: &Vec<usize>,
        idx: usize,
        key: K,
        value: V,
        blocks: &mut Vec<Block>,
    ) -> (r: (&mut V, bool))
        requires
            old(self).wf(h@),
            height == h@,
            h@ > 0 ==> old(self).kvs@.len() >= 1,
            old(self).valid_gap(h@, path@, idx as int),
            old(blocks)@.len() == old(self).blocks_needed(h@, path@, idx as int),
            forall|i: int|
                0 <= i < old(blocks)@.len() ==> (#[trigger] old(blocks)@[i]).layout
                    == node_layout_spec::<K, V>(),
        ensures
            final(self).wf(if r.1 {
                h@ + 1
            } else {
                h@
            }),
            (r.1 ==> h@ + 1 > 0 && final(self).kvs@.len() >= 1),
            (!r.1 && h@ > 0) ==> final(self).kvs@.len() >= 1,
            *r.0 == value,
            final(self).inorder() == old(self).inorder().insert(
                old(self).gap_pos(h@, path@, idx as int),
                (key, *final(r.0)),
            ),
    {
        let cur = if 0 < path.len() {
            path[0]
        } else {
            idx
        };
        let (full, _) = self.path_info(h, height, path, 0, cur, idx);
        if !full {
            proof {
                if self.receives(h@, path@, 0, cur as int, idx as int) && self.kvs@.len() == CAPACITY {
                    assert(self.full_path(h@, path@, 0, cur as int, idx as int));
                }
            }
            let r = self.insert_descend(h, height, path, 0, cur, idx, key, value, blocks);
            return (r, false);
        }
        let ghost old_root = *self;
        let b_right = blocks.pop().unwrap();
        let b_root = blocks.pop().unwrap();
        let (med, right) = self.split(h, b_right);
        let ghost left = *self;
        let mut top = Node::new_leaf(b_root);
        core::mem::swap(self, &mut top);
        self.push_internal_level(top, med, right);
        let ghost n = *self;
        proof {
            Self::lemma_split_pos(old_root, left, right, h@, path@, 0, cur as int, idx as int);
            n.lemma_children();
            let cs = n.children();
            assert(cs =~= seq![left.inorder(), right.inorder()]);
            assert(n.kvs@.drop_first() =~= Seq::<(K, V)>::empty());
            assert(interleave(cs.drop_first(), n.kvs@.drop_first()) == cs[1]);
            assert(n.inorder() == interleave(cs, n.kvs@));
            assert(n.inorder() == left.inorder() + seq![med] + right.inorder());
            assert forall|j: int| 0 <= j < n.edges@.len() implies (#[trigger] n.edges@[j]).wf(h@)
                && n.edges@[j].kvs@.len() >= MIN_LEN by {
                if j == 0 {
                    assert(n.edges@[0] == left);
                } else {
                    assert(n.edges@[1] == right);
                }
            }
            n.lemma_wf_intro(h@ + 1);
        }
        let (c, e2) = if cur >= B {
            (1usize, cur - B)
        } else {
            (0usize, cur)
        };
        proof {
            let ch = n.edges@[c as int];
            Self::lemma_replace_child_all(n, c as int, h@ + 1);
            assert(before(n.children(), n.kvs@, 0) == Seq::<(K, V)>::empty());
            assert(before(n.children(), n.kvs@, 1) =~= left.inorder() + seq![med]);
            if h@ > 0 {
                assert(ch.edges@[e2 as int] == old_root.edges@[cur as int]);
            }
            ch.lemma_edge_pos_bound(h@, path@, 0, e2 as int, idx as int);
            let p = ch.edge_pos(h@, path@, 0, e2 as int, idx as int);
            Self::lemma_insert_in_child(
                before(n.children(), n.kvs@, c as int),
                ch.inorder(),
                after(n.children(), n.kvs@, c as int),
                p,
            );
        }
        let child = &mut self.edges[c];
        let r = child.insert_descend(h, height, path, 0, e2, idx, key, value, blocks);
        (r, true)
    }

    /// Turns the empty node `self` into a root one level above `left` and
    /// `right`, holding `med` between them.
    fn push_internal_level(&mut self, left: Node<K, V>, med: (K, V), right: Node<K, V>)
        requires
            old(self).kvs@.len() == 0,
            old(self).edges@.len() == 0,
        ensures
            final(self).kvs@ == seq![med],
            final(self).edges@ == seq![left, right],
            final(self).block == old(self).block,
    {
        self.kvs.push(med);
        self.edges.push(left);
        self.edges.push(right);
        proof {
            assert(self.kvs@ =~= seq![med]);
            assert(self.edges@ =~= seq![left, right]);
        }
    }

    /// Replaces a root that holds no pair by its only child: the tree
    /// shrinks by one level. Returns the old root's block.
    pub fn pop_internal_level(&mut self, h: Ghost<nat>) -> (r: Block)
        requires
            old(self).wf(h@),
            h@ > 0,
            old(self).kvs@.len() == 0,
        ensures
            final(self).wf((h@ - 1) as nat),
            final(self).inorder() == old(self).inorder(),
            (h@ - 1) > 0 ==> final(self).kvs@.len() >= 1,
            final(self).inorder().len() >= 1,
            r == old(self).block,
    {
        let ghost p0 = *self;
        proof {
            p0.lemma_children();
            p0.lemma_wf_shape(h@);
            p0.edges@[0].lemma_full_subtree_len((h@ - 1) as nat);
        }
        let mut child = self.edges.pop().unwrap();
        core::mem::swap(self, &mut child);
        child.block
    }
}

proof fn lemma_interleave_len<T>(cs: Seq<Seq<T>>, ks: Seq<T>)
    requires
        cs.len() == ks.len() + 1,
    ensures
        interleave(cs, ks).len() >= cs[0].len() + ks.len(),
    decreases ks.len(),
{
    if ks.len() > 0 {
        lemma_interleave_len(cs.drop_first(), ks.drop_first());
    }
}

impl<K, V> Node<K, V> {
    /// A subtree of height `h` whose top holds at least `MIN_LEN` pairs
    /// holds at least `MIN_LEN * (h + 1)` pairs.
    proof fn lemma_full_subtree_len(self, h: nat)
        requires
            self.wf(h),
            self.kvs@.len() >= MIN_LEN,
        ensures
            self.inorder().len() >= MIN_LEN * (h + 1),
        decreases h,
    {
        if h > 0 {
            self.lemma_children();
            self.edges@[0].lemma_full_subtree_len((h - 1) as nat);
            lemma_interleave_len(self.children(), self.kvs@);
        }
    }

    /// A tree is shallower than it is long.
    pub proof fn lemma_height_bound(self, h: nat)
        requires
            self.wf(h),
            h > 0 ==> self.kvs@.len() >= 1,
        ensures
            h > 0 ==> self.inorder().len() >= h + 3,
    {
        if h > 0 {
            self.lemma_children();
            self.edges@[0].lemma_full_subtree_len((h - 1) as nat);
            lemma_interleave_len(self.children(), self.kvs@);
        }
    }

    /// The pairs of the subtree, in order.
    pub fn collect<'a>(&'a self, h: Ghost<nat>, height: usize, out: &mut Vec<(&'a K, &'a V)>)
        requires
            self.wf(h@),
            height == h@,
        ensures
            final(out)@.len() == old(out)@.len() + self.inorder().len(),
            forall|i: int|
                0 <= i < old(out)@.len() ==> #[trigger] final(out)@[i] == old(out)@[i],
            forall|i: int|
                0 <= i < self.inorder().len() ==> *(#[trigger] final(out)@[old(out)@.len() + i]).0
                    == self.inorder()[i].0 && *final(out)@[old(out)@.len() + i].1
                    == self.inorder()[i].1,
        decreases height,
    {
        let ghost start = out@.len();
        if height == 0 {
            let mut i: usize = 0;
            while i < self.kvs.len()
                invariant
                    0 <= i <= self.kvs@.len(),
                    self.wf(h@),
                    h@ == 0,
                    out@.len() == start + i,
                    forall|j: int| 0 <= j < start ==> #[trigger] out@[j] == old(out)@[j],
                    forall|j: int|
                        0 <= j < i ==> *(#[trigger] out@[start + j]).0 == self.inorder()[j].0
                            && *out@[start + j].1 == self.inorder()[j].1,
                decreases self.kvs@.len() - i,
            {
                let kv = &self.kvs[i];
                out.push((&kv.0, &kv.1));
                i += 1;
            }
            return ;
        }
        let ghost cs = self.children();
        let ghost ks = self.kvs@;
        proof {
            self.lemma_children();
            self.lemma_wf_shape(h@);
        }
        let mut i: usize = 0;
        while i < self.kvs.len()
            invariant
                0 <= i <= self.kvs@.len(),
                self.wf(h@),
                h@ > 0,
                height == h@,
                cs == self.children(),
                ks == self.kvs@,
                cs.len() == ks.len() + 1,
                forall|j: int| 0 <= j < cs.len() ==> #[trigger] cs[j] == self.edges@[j].inorder(),
                out@.len() == start + before(cs, ks, i as int).len(),
                forall|j: int| 0 <= j < start ==> #[trigger] out@[j] == old(out)@[j],
                forall|j: int|
                    0 <= j < before(cs, ks, i as int).len() ==> *(#[trigger] out@[start + j]).0
                        == before(cs, ks, i as int)[j].0 && *out@[start + j].1 == before(
                        cs,
                        ks,
                        i as int,
                    )[j].1,
            decreases self.kvs@.len() - i,
        {
            let ghost mid = out@;
            self.edges[i].collect(Ghost((h@ - 1) as nat), height - 1, out);
            let ghost mid2 = out@;
            let kv = &self.kvs[i];
            out.push((&kv.0, &kv.1));
            proof {
                lemma_before_next(cs, ks, i as int);
                let b = before(cs, ks, i as int);
                let b2 = before(cs, ks, i as int + 1);
                let c = cs[i as int];
                assert forall|j: int| 0 <= j < b2.len() implies *(#[trigger] out@[start + j]).0
                    == b2[j].0 && *out@[start + j].1 == b2[j].1 by {
                    if j < b.len() {
                        assert(mid2[start + j] == mid[start + j]);
                        assert(out@[start + j] == mid2[start + j]);
                    } else if j < b.len() + c.len() {
                        let k = j - b.len();
                        assert(out@[start + j] == mid2[start + j]);
                        assert(mid2[mid.len() + k] == mid2[start + j]);
                        assert(b2[j] == c[k]);
                    } else {
                        assert(b2[j] == ks[i as int]);
                    }
                }
            }
            i += 1;
        }
        let ghost mid = out@;
        let last = self.kvs.len();
        self.edges[last].collect(Ghost((h@ - 1) as nat), height - 1, out);
        proof {
            lemma_decompose(cs, ks, last as int);
            let b = before(cs, ks, last as int);
            assert(after(cs, ks, last as int) =~= Seq::<(K, V)>::empty());
            let c = cs[last as int];
            assert forall|j: int| 0 <= j < self.inorder().len() implies *(#[trigger] out@[start
                + j]).0 == self.inorder()[j].0 && *out@[start + j].1 == self.inorder()[j].1 by {
                if j < b.len() {
                    assert(out@[start + j] == mid[start + j]);
                } else {
                    let k = j - b.len();
                    assert(out@[mid.len() + k] == out@[start + j]);
                    assert(self.inorder()[j] == c[k]);
                }
            }
        }
    }
}

impl<K, V> Node<K, V> {
    /// Hands the block of every node of the subtree back to `alloc`.
    pub fn release<A: Allocator>(self, h: Ghost<nat>, alloc: &A)
        requires
            self.wf(h@),
        decreases h@,
    {
        proof {
            self.lemma_wf_shape(h@);
        }
        let Node { kvs, mut edges, block } = self;
        while edges.len() > 0
            invariant
                h@ == 0 ==> edges@.len() == 0,
                h@ > 0 ==> forall|j: int|
                    0 <= j < edges@.len() ==> (#[trigger] edges@[j]).wf((h@ - 1) as nat),
            decreases edges@.len(),
        {
            let child = edges.pop().unwrap();
            child.release(Ghost((h@ - 1) as nat), alloc);
        }
        alloc.deallocate(block, block.layout);
    }
}

} // verus!
