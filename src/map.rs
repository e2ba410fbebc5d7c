//! An ordered map on a B-tree whose nodes are requested from an allocator.
//! Its contents are described by the ascending sequence of its pairs
//! (`entries`) and by the map from keys to values that sequence gives.
use vstd::prelude::*;

use crate::allocator::{AllocError, Allocator, Block, Global};
pub use crate::node::Handle;
use crate::node::{node_layout, node_layout_spec, Node};
use crate::order::{key_lt, lemma_cmp, lemma_lt_trans, sorted_by_key, total_order};

verus! {

/// The map from keys to values that a sequence of pairs gives.
pub open spec fn map_of<K, V>(s: Seq<(K, V)>) -> Map<K, V> {
    Map::new(
        |k: K| exists|i: int| 0 <= i < s.len() && s[i].0 == k,
        |k: K| s[choose|i: int| 0 <= i < s.len() && s[i].0 == k].1,
    )
}

/// No key occurs twice.
pub open spec fn unique_keys<K, V>(s: Seq<(K, V)>) -> bool {
    forall|i: int, j: int| 0 <= i < s.len() && 0 <= j < s.len() && i != j ==> s[i].0 != s[j].0
}

/// The keys of a sequence of pairs.
pub open spec fn keys_of<K, V>(s: Seq<(K, V)>) -> Seq<K> {
    s.map_values(|e: (K, V)| e.0)
}

/// Strictly ascending keys are distinct.
pub proof fn lemma_sorted_unique<K: Ord, V>(s: Seq<(K, V)>)
    requires
        total_order::<K>(),
        sorted_by_key(s),
    ensures
        unique_keys(s),
{
    assert forall|i: int, j: int| 0 <= i < s.len() && 0 <= j < s.len() && i != j implies s[i].0
        != s[j].0 by {
        if i < j {
            lemma_cmp(s[i].0, s[j].0);
        } else {
            lemma_cmp(s[j].0, s[i].0);
        }
    }
}

/// The pair at `i` is what the map gives for its key.
pub proof fn lemma_map_of_index<K, V>(s: Seq<(K, V)>, i: int)
    requires
        unique_keys(s),
        0 <= i < s.len(),
    ensures
        map_of(s).contains_key(s[i].0),
        map_of(s)[s[i].0] == s[i].1,
{
    let k = s[i].0;
    assert(exists|j: int| 0 <= j < s.len() && s[j].0 == k);
    let j = choose|j: int| 0 <= j < s.len() && s[j].0 == k;
    assert(j == i);
}

/// Inserting a new key at any place adds it to the map.
pub proof fn lemma_map_of_insert<K, V>(s: Seq<(K, V)>, p: int, k: K, v: V)
    requires
        unique_keys(s),
        0 <= p <= s.len(),
        !map_of(s).contains_key(k),
    ensures
        unique_keys(s.insert(p, (k, v))),
        map_of(s.insert(p, (k, v))) == map_of(s).insert(k, v),
{
    let t = s.insert(p, (k, v));
    assert forall|i: int, j: int| 0 <= i < t.len() && 0 <= j < t.len() && i != j implies t[i].0
        != t[j].0 by {
        if i != p && j != p {
            let i0 = if i < p { i } else { i - 1 };
            let j0 = if j < p { j } else { j - 1 };
            assert(t[i] == s[i0] && t[j] == s[j0]);
        } else if i == p {
            let j0 = if j < p { j } else { j - 1 };
            assert(t[j] == s[j0]);
        } else {
            let i0 = if i < p { i } else { i - 1 };
            assert(t[i] == s[i0]);
        }
    }
    assert forall|x: K| #[trigger] map_of(t).contains_key(x) <==> map_of(s).insert(k, v).contains_key(x) by {
        if map_of(s).contains_key(x) {
            let i = choose|i: int| 0 <= i < s.len() && s[i].0 == x;
            let i1 = if i < p { i } else { i + 1 };
            assert(t[i1] == s[i]);
        }
        if map_of(t).contains_key(x) && x != k {
            let i = choose|i: int| 0 <= i < t.len() && t[i].0 == x;
            let i0 = if i < p { i } else { i - 1 };
            assert(t[i] == s[i0]);
        }
        assert(t[p] == (k, v));
    }
    assert forall|x: K| #[trigger] map_of(t).contains_key(x) implies map_of(t)[x] == map_of(s).insert(k, v)[x] by {
        let i = choose|i: int| 0 <= i < t.len() && t[i].0 == x;
        lemma_map_of_index(t, i);
        if i != p {
            let i0 = if i < p { i } else { i - 1 };
            assert(t[i] == s[i0]);
            lemma_map_of_index(s, i0);
        }
    }
    assert(map_of(t) =~= map_of(s).insert(k, v));
}

/// Changing the value of a pair changes it in the map.
pub proof fn lemma_map_of_update<K, V>(s: Seq<(K, V)>, p: int, v: V)
    requires
        unique_keys(s),
        0 <= p < s.len(),
    ensures
        unique_keys(s.update(p, (s[p].0, v))),
        map_of(s.update(p, (s[p].0, v))) == map_of(s).insert(s[p].0, v),
{
    let t = s.update(p, (s[p].0, v));
    let k = s[p].0;
    assert forall|x: K| #[trigger] map_of(t).contains_key(x) <==> map_of(s).insert(k, v).contains_key(x) by {
        if map_of(s).contains_key(x) {
            let i = choose|i: int| 0 <= i < s.len() && s[i].0 == x;
            assert(t[i].0 == s[i].0);
        }
        if map_of(t).contains_key(x) {
            let i = choose|i: int| 0 <= i < t.len() && t[i].0 == x;
            assert(t[i].0 == s[i].0);
        }
        assert(t[p].0 == k);
    }
    assert forall|x: K| #[trigger] map_of(t).contains_key(x) implies map_of(t)[x] == map_of(s).insert(k, v)[x] by {
        let i = choose|i: int| 0 <= i < t.len() && t[i].0 == x;
        lemma_map_of_index(t, i);
        if i != p {
            lemma_map_of_index(s, i);
        }
    }
    assert(map_of(t) =~= map_of(s).insert(k, v));
}

/// Removing a pair removes its key from the map.
pub proof fn lemma_map_of_remove<K, V>(s: Seq<(K, V)>, p: int)
    requires
        unique_keys(s),
        0 <= p < s.len(),
    ensures
        unique_keys(s.remove(p)),
        map_of(s.remove(p)) == map_of(s).remove(s[p].0),
{
    let t = s.remove(p);
    let k = s[p].0;
    assert forall|x: K| #[trigger] map_of(t).contains_key(x) <==> map_of(s).remove(k).contains_key(x) by {
        if map_of(s).contains_key(x) && x != k {
            let i = choose|i: int| 0 <= i < s.len() && s[i].0 == x;
            let i0 = if i < p { i } else { i - 1 };
            assert(t[i0] == s[i]);
        }
        if map_of(t).contains_key(x) {
            let i = choose|i: int| 0 <= i < t.len() && t[i].0 == x;
            let i1 = if i < p { i } else { i + 1 };
            assert(t[i] == s[i1]);
        }
    }
    assert forall|x: K| #[trigger] map_of(t).contains_key(x) implies map_of(t)[x] == map_of(s).remove(k)[x] by {
        let i = choose|i: int| 0 <= i < t.len() && t[i].0 == x;
        lemma_map_of_index(t, i);
        let i1 = if i < p { i } else { i + 1 };
        assert(t[i] == s[i1]);
        lemma_map_of_index(s, i1);
    }
    assert(map_of(t) =~= map_of(s).remove(k));
}

/// An ordered map whose nodes come from the allocator `A`.
///
/// Nodes are handed back to the allocator as merges and removals free
/// them, and all at once by `clear`; a map that is simply dropped gives
/// its remaining nodes' blocks back to no one.
#[derive(Debug)]
pub struct BTreeMap<K, V, A: Allocator = Global> {
    root: Option<Node<K, V>>,
    height: usize,
    length: usize,
    alloc: A,
}

impl<K: Ord, V, A: Allocator> View for BTreeMap<K, V, A> {
    type V = Map<K, V>;

    open spec fn view(&self) -> Map<K, V> {
        map_of(self.entries())
    }
}

impl<K: Ord, V> BTreeMap<K, V, Global> {
    /// An empty map on the default allocator.
    pub fn new() -> (r: Self)
        requires
            total_order::<K>(),
        ensures
            r.wf(),
            r.entries() == Seq::<(K, V)>::empty(),
            r@ == Map::<K, V>::empty(),
            r.spec_len() == 0,
    {
        Self::new_in(Global)
    }
}

impl<K: Ord, V, A: Allocator> BTreeMap<K, V, A> {
    /// The pairs, in ascending key order.
    pub closed spec fn entries(&self) -> Seq<(K, V)> {
        match self.root {
            Some(r) => r.inorder(),
            None => Seq::empty(),
        }
    }

    /// The map's consistency: a root exactly when it is non-empty, a
    /// well-formed tree of the recorded height holding `len()` pairs in
    /// strictly ascending key order.
    pub closed spec fn wf(&self) -> bool {
        &&& total_order::<K>()
        &&& self.root is None <==> self.length == 0
        &&& self.root is None ==> self.height == 0
        &&& self.root matches Some(r) ==> {
            &&& r.wf(self.height as nat)
            &&& self.height > 0 ==> r.kvs@.len() >= 1
            &&& r.inorder().len() == self.length
        }
        &&& sorted_by_key(self.entries())
    }

    /// The allocator the map's nodes come from.
    pub closed spec fn spec_allocator(&self) -> A {
        self.alloc
    }

    /// How many levels the tree has below its root.
    pub closed spec fn spec_height(&self) -> nat {
        self.height as nat
    }

    /// How many new nodes inserting at the gap `h` leads to needs: one for
    /// the first leaf of a map without root; else one for each full node of
    /// the run that ends at the leaf, and one more for a new root when that
    /// run takes in the root. A leaf with room needs none.
    pub closed spec fn nodes_needed_at(&self, h: Option<Handle>) -> nat {
        match (self.root, h) {
            (Some(r), Some(g)) => r.blocks_needed(self.height as nat, g.path@, g.idx as int),
            _ => 1,
        }
    }

    /// The number of pairs the map records.
    pub closed spec fn spec_len(&self) -> usize {
        self.length
    }

    /// A handle that leads to a pair.
    pub closed spec fn valid_kv_handle(&self, h: Handle) -> bool {
        match self.root {
            Some(r) => r.valid_kv(self.height as nat, h.path@, 0, h.idx as int),
            None => false,
        }
    }

    /// Where in `entries()` the pair a handle leads to stands.
    pub closed spec fn kv_index(&self, h: Handle) -> int {
        match self.root {
            Some(r) => r.kv_pos(self.height as nat, h.path@, 0, h.idx as int),
            None => 0,
        }
    }

    /// A handle (none for a map without root) to the gap where `key`, which
    /// the map lacks, belongs.
    pub closed spec fn valid_gap_handle(&self, key: K, h: Option<Handle>) -> bool {
        &&& !self@.contains_key(key)
        &&& match self.root {
            None => h is None,
            Some(r) => h matches Some(g) && r.valid_gap(self.height as nat, g.path@, g.idx as int),
        }
        &&& forall|j: int|
            0 <= j < self.gap_index(h) ==> key_lt(#[trigger] self.entries()[j].0, key)
        &&& forall|j: int|
            self.gap_index(h) <= j < self.entries().len() ==> key_lt(
                key,
                #[trigger] self.entries()[j].0,
            )
    }

    /// Where in `entries()` the gap a handle leads to stands.
    pub closed spec fn gap_index(&self, h: Option<Handle>) -> int {
        match (self.root, h) {
            (Some(r), Some(g)) => r.gap_pos(self.height as nat, g.path@, g.idx as int),
            _ => 0,
        }
    }

    /// A gap handle stands within the pairs, where the map lacks its key.
    pub proof fn lemma_gap_handle(&self, key: K, h: Option<Handle>)
        requires
            self.wf(),
            self.valid_gap_handle(key, h),
        ensures
            0 <= self.gap_index(h) <= self.entries().len(),
            !self@.contains_key(key),
    {
        if let (Some(r), Some(g)) = (self.root, h) {
            r.lemma_edge_pos_bound(
                self.height as nat,
                g.path@,
                0,
                crate::node::next_index(g.path@, 0, g.idx as int),
                g.idx as int,
            );
        }
    }

    /// In an empty map every key belongs at the start.
    pub proof fn lemma_empty_gap(&self, key: K)
        requires
            self.wf(),
            self.spec_len() == 0,
        ensures
            self.valid_gap_handle(key, None),
    {
        assert(self.entries().len() == 0);
    }

    /// A pair handle stands within the pairs.
    pub proof fn lemma_kv_handle(&self, h: Handle)
        requires
            self.wf(),
            self.valid_kv_handle(h),
        ensures
            0 <= self.kv_index(h) < self.entries().len(),
    {
        let r = self.root->Some_0;
        r.lemma_kv_pos(self.height as nat, h.path@, 0, h.idx as int);
    }

    /// Facts every consistent map gives.
    pub proof fn lemma_wf(&self)
        requires
            self.wf(),
        ensures
            total_order::<K>(),
            sorted_by_key(self.entries()),
            unique_keys(self.entries()),
            self.entries().len() == self.spec_len(),
    {
        lemma_sorted_unique(self.entries());
    }

    /// An empty map whose nodes will come from `alloc`.
    pub fn new_in(alloc: A) -> (r: Self)
        requires
            total_order::<K>(),
        ensures
            r.wf(),
            r.entries() == Seq::<(K, V)>::empty(),
            r@ == Map::<K, V>::empty(),
            r.spec_len() == 0,
            r.spec_allocator() == alloc,
    {
        proof {
            assert(map_of(Seq::<(K, V)>::empty()) =~= Map::<K, V>::empty());
        }
        BTreeMap { root: None, height: 0, length: 0, alloc }
    }

    /// How many pairs the map holds.
    #[verifier::when_used_as_spec(spec_len)]
    pub fn len(&self) -> (r: usize)
        ensures
            r == self.spec_len(),
    {
        self.length
    }

    /// Whether the map holds no pair.
    pub fn is_empty(&self) -> (r: bool)
        requires
            self.wf(),
        ensures
            r == (self.entries().len() == 0),
    {
        self.length == 0
    }

    /// The allocator the map's nodes come from.
    pub fn allocator(&self) -> (r: &A)
        ensures
            *r == self.spec_allocator(),
    {
        &self.alloc
    }

    /// Removes every pair, handing every node's block back to the
    /// allocator.
    pub fn clear(&mut self)
        requires
            old(self).wf(),
        ensures
            final(self).wf(),
            final(self).entries() == Seq::<(K, V)>::empty(),
            final(self)@ == Map::<K, V>::empty(),
            final(self).spec_len() == 0,
            final(self).spec_allocator() == old(self).spec_allocator(),
    {
        let root = self.root.take();
        match root {
            Some(r) => r.release(Ghost(self.height as nat), &self.alloc),
            None => {},
        }
        self.height = 0;
        self.length = 0;
        proof {
            assert(map_of(Seq::<(K, V)>::empty()) =~= Map::<K, V>::empty());
        }
    }

    /// Looks `key` up: found, a handle to its pair; else a handle to the
    /// gap where it belongs.
    pub(crate) fn search_tree(&self, key: &K) -> (r: (bool, Handle))
        requires
            self.wf(),
            self.spec_len() > 0,
        ensures
            r.0 ==> self.valid_kv_handle(r.1) && self.entries()[self.kv_index(r.1)].0 == *key,
            r.0 ==> 0 <= self.kv_index(r.1) < self.entries().len(),
            !r.0 ==> self.valid_gap_handle(*key, Some(r.1)),
    {
        let root = self.root.as_ref().unwrap();
        let mut path: Vec<usize> = Vec::new();
        let (found, idx) = root.search(Ghost(self.height as nat), self.height, key, &mut path);
        let handle = Handle { path, idx };
        proof {
            assert(handle.path@.take(0) =~= Seq::<usize>::empty());
            self.lemma_wf();
            if found {
                root.lemma_kv_pos(self.height as nat, handle.path@, 0, idx as int);
            } else {
                root.lemma_edge_pos_bound(
                    self.height as nat,
                    handle.path@,
                    0,
                    crate::node::next_index(handle.path@, 0, idx as int),
                    idx as int,
                );
                assert forall|k: K| #![auto] self@.contains_key(k) implies k != *key by {
                    let i = choose|i: int| 0 <= i < self.entries().len() && self.entries()[i].0 == k;
                    lemma_cmp(*key, k);
                }
            }
        }
        (found, handle)
    }
}

/// Inserting a key at its place keeps the keys ascending, whatever value
/// goes with it.
pub proof fn lemma_sorted_insert<K: Ord, V>(s: Seq<(K, V)>, p: int, k: K)
    requires
        total_order::<K>(),
        sorted_by_key(s),
        0 <= p <= s.len(),
        forall|j: int| 0 <= j < p ==> key_lt(#[trigger] s[j].0, k),
        forall|j: int| p <= j < s.len() ==> key_lt(k, #[trigger] s[j].0),
    ensures
        forall|v: V| #[trigger] sorted_by_key(s.insert(p, (k, v))),
{
    assert forall|v: V| #[trigger] sorted_by_key(s.insert(p, (k, v))) by {
        let t = s.insert(p, (k, v));
        assert forall|i: int, j: int| 0 <= i < j < t.len() implies key_lt(
            #[trigger] t[i].0,
            #[trigger] t[j].0,
        ) by {
            if j < p {
                assert(t[i] == s[i] && t[j] == s[j]);
            } else if j == p {
                assert(t[i] == s[i]);
            } else if i < p {
                assert(t[i] == s[i] && t[j] == s[j - 1]);
            } else if i == p {
                assert(t[j] == s[j - 1]);
            } else {
                assert(t[i] == s[i - 1] && t[j] == s[j - 1]);
            }
        }
    }
}

/// Changing values keeps the keys ascending.
pub proof fn lemma_sorted_update<K: Ord, V>(s: Seq<(K, V)>, p: int)
    requires
        sorted_by_key(s),
        0 <= p < s.len(),
    ensures
        forall|v: V| #[trigger] sorted_by_key(s.update(p, (s[p].0, v))),
{
    assert forall|v: V| #[trigger] sorted_by_key(s.update(p, (s[p].0, v))) by {
        let t = s.update(p, (s[p].0, v));
        assert forall|i: int, j: int| 0 <= i < j < t.len() implies key_lt(
            #[trigger] t[i].0,
            #[trigger] t[j].0,
        ) by {
            assert(t[i].0 == s[i].0 && t[j].0 == s[j].0);
        }
    }
}

/// Removing a pair keeps the keys ascending.
pub proof fn lemma_sorted_remove<K: Ord, V>(s: Seq<(K, V)>, p: int)
    requires
        sorted_by_key(s),
        0 <= p < s.len(),
    ensures
        sorted_by_key(s.remove(p)),
{
    let t = s.remove(p);
    assert forall|i: int, j: int| 0 <= i < j < t.len() implies key_lt(
        #[trigger] t[i].0,
        #[trigger] t[j].0,
    ) by {
        let i1 = if i < p { i } else { i + 1 };
        let j1 = if j < p { j } else { j + 1 };
        assert(t[i] == s[i1] && t[j] == s[j1]);
    }
}

impl<K: Ord, V, A: Allocator> BTreeMap<K, V, A> {
    /// Hands every block in `blocks` back to the allocator.
    fn release_blocks(&self, mut blocks: Vec<Block>) {
        while blocks.len() > 0
            decreases blocks@.len(),
        {
            let b = blocks.pop().unwrap();
            self.alloc.deallocate(b, b.layout);
        }
    }

    /// Obtains `count` node blocks, all or none: on the first refusal the
    /// blocks already obtained go back to the allocator.
    fn obtain_blocks(&self, count: usize) -> (r: Result<Vec<Block>, AllocError>)
        ensures
            r matches Ok(bs) ==> bs@.len() == count && forall|i: int|
                0 <= i < bs@.len() ==> (#[trigger] bs@[i]).layout == node_layout_spec::<K, V>(),
            r matches Err(e) ==> e.layout == node_layout_spec::<K, V>() && count > 0,
            self.spec_allocator().grants_every_request() ==> r is Ok,
    {
        let layout = node_layout::<K, V>();
        let mut blocks: Vec<Block> = Vec::new();
        let mut i: usize = 0;
        while i < count
            invariant
                0 <= i <= count,
                blocks@.len() == i,
                layout == node_layout_spec::<K, V>(),
                forall|j: int| 0 <= j < blocks@.len() ==> (#[trigger] blocks@[j]).layout == layout,
            decreases count - i,
        {
            match self.alloc.allocate(layout) {
                Ok(b) => blocks.push(b),
                Err(e) => {
                    self.release_blocks(blocks);
                    return Err(e);
                },
            }
            i += 1;
        }
        Ok(blocks)
    }

    /// Inserts `(key, value)` at the gap `handle` leads to. Every node the
    /// insertion needs is obtained before the tree is touched, so a refused
    /// allocation leaves the map exactly as it was.
    pub(crate) fn insert_at_gap(&mut self, handle: Option<Handle>, key: K, value: V) -> (r: Result<
        &mut V,
        AllocError,
    >)
        requires
            old(self).wf(),
            old(self).valid_gap_handle(key, handle),
            old(self).spec_len() < usize::MAX,
        ensures
            match r {
                Ok(v) => {
                    &&& final(self).wf()
                    &&& *v == value
                    &&& final(self).entries() == old(self).entries().insert(
                        old(self).gap_index(handle),
                        (key, *final(v)),
                    )
                    &&& final(self).spec_allocator() == old(self).spec_allocator()
                    &&& final(self).spec_len() == old(self).spec_len() + 1
                    &&& final(self).spec_height() == old(self).spec_height() || final(self).spec_height()
                        == old(self).spec_height() + 1
                },
                Err(e) => *final(self) == *old(self) && e.layout == node_layout_spec::<K, V>()
                    && old(self).nodes_needed_at(handle) > 0,
            },
            old(self).spec_allocator().grants_every_request() ==> r is Ok,
    {
        proof {
            self.lemma_wf();
        }
        match handle {
            None => {
                let blocks = self.obtain_blocks(1);
                let mut blocks = match blocks {
                    Ok(bs) => bs,
                    Err(e) => return Err(e),
                };
                let block = blocks.pop().unwrap();
                let leaf = Node::new_single(block, key, value);
                self.root = Some(leaf);
                self.length = 1;
                self.height = 0;
                let path: Vec<usize> = Vec::new();
                proof {
                    assert forall|v: V| #[trigger] sorted_by_key(seq![(key, v)]) by {}
                    assert(old(self).entries() == Seq::<(K, V)>::empty());
                    assert forall|v: V| #[trigger] seq![(key, value)].update(0, (key, v)) =~= Seq::<(K, V)>::empty().insert(0, (key, v)) by {}
                    assert forall|v: V| #[trigger] seq![(key, value)].update(0, (key, v)) =~= seq![(key, v)] by {}
                }
                let root = self.root.as_mut().unwrap();
                Ok(root.val_mut_at(Ghost(0), &path, 0, 0))
            },
            Some(h) => {
                let height = self.height;
                let count = {
                    let root = self.root.as_ref().unwrap();
                    proof {
                        root.lemma_height_bound(height as nat);
                    }
                    root.count_blocks(Ghost(height as nat), height, &h.path, h.idx)
                };
                let blocks = self.obtain_blocks(count);
                let mut blocks = match blocks {
                    Ok(bs) => bs,
                    Err(e) => return Err(e),
                };
                let ghost old_entries = self.entries();
                let ghost p = self.gap_index(handle);
                proof {
                    let root = self.root->Some_0;
                    let g = handle->Some_0;
                    root.lemma_edge_pos_bound(
                        height as nat,
                        g.path@,
                        0,
                        crate::node::next_index(g.path@, 0, g.idx as int),
                        g.idx as int,
                    );
                    lemma_sorted_insert::<K, V>(old_entries, p, key);
                    let root = self.root->Some_0;
                    root.lemma_height_bound(height as nat);
                }
                let root = self.root.as_mut().unwrap();
                let (r, grew) = root.insert_from_root(
                    Ghost(height as nat),
                    height,
                    &h.path,
                    h.idx,
                    key,
                    value,
                    &mut blocks,
                );
                if grew {
                    self.height = height + 1;
                }
                self.length = self.length + 1;
                Ok(r)
            },
        }
    }
}

impl<K: Ord, V, A: Allocator> BTreeMap<K, V, A> {
    /// The pair a handle leads to.
    pub(crate) fn kv_at_handle(&self, h: &Handle) -> (r: &(K, V))
        requires
            self.wf(),
            self.valid_kv_handle(*h),
        ensures
            0 <= self.kv_index(*h) < self.entries().len(),
            *r == self.entries()[self.kv_index(*h)],
    {
        let root = self.root.as_ref().unwrap();
        proof {
            root.lemma_kv_pos(self.height as nat, h.path@, 0, h.idx as int);
        }
        root.kv_at(Ghost(self.height as nat), &h.path, 0, h.idx)
    }

    /// The value of the pair a handle leads to, for changing in place.
    pub(crate) fn val_mut_at_handle(&mut self, h: &Handle) -> (r: &mut V)
        requires
            old(self).wf(),
            old(self).valid_kv_handle(*h),
        ensures
            0 <= old(self).kv_index(*h) < old(self).entries().len(),
            *r == old(self).entries()[old(self).kv_index(*h)].1,
            final(self).wf(),
            final(self).valid_kv_handle(*h),
            final(self).kv_index(*h) == old(self).kv_index(*h),
            final(self).spec_len() == old(self).spec_len(),
            final(self).spec_allocator() == old(self).spec_allocator(),
            final(self).entries() == old(self).entries().update(
                old(self).kv_index(*h),
                (old(self).entries()[old(self).kv_index(*h)].0, *final(r)),
            ),
    {
        let height = self.height;
        proof {
            let root = self.root->Some_0;
            root.lemma_kv_pos(height as nat, h.path@, 0, h.idx as int);
            lemma_sorted_update::<K, V>(self.entries(), self.kv_index(*h));
        }
        let root = self.root.as_mut().unwrap();
        root.val_mut_at(Ghost(height as nat), &h.path, 0, h.idx)
    }

    /// Removes the pair a handle leads to, rebalancing the tree and
    /// dropping a level when the root is left without a pair.
    pub(crate) fn remove_at_handle(&mut self, h: Handle) -> (r: (K, V))
        requires
            old(self).wf(),
            old(self).valid_kv_handle(h),
        ensures
            final(self).wf(),
            0 <= old(self).kv_index(h) < old(self).entries().len(),
            r == old(self).entries()[old(self).kv_index(h)],
            final(self).entries() == old(self).entries().remove(old(self).kv_index(h)),
            final(self).spec_allocator() == old(self).spec_allocator(),
            final(self).spec_len() + 1 == old(self).spec_len(),
    {
        let height = self.height;
        let ghost old_entries = self.entries();
        let ghost i = self.kv_index(h);
        proof {
            let root = self.root->Some_0;
            root.lemma_kv_pos(height as nat, h.path@, 0, h.idx as int);
            lemma_sorted_remove::<K, V>(old_entries, i);
        }
        let kv = {
            let root = self.root.as_mut().unwrap();
            root.remove_at(Ghost(height as nat), height, &h.path, 0, h.idx, &self.alloc)
        };
        self.length = self.length - 1;
        let root_empty = {
            let root = self.root.as_ref().unwrap();
            root.kvs.len() == 0
        };
        if height > 0 && root_empty {
            let block = {
                let root = self.root.as_mut().unwrap();
                root.pop_internal_level(Ghost(height as nat))
            };
            self.alloc.deallocate(block, block.layout);
            self.height = height - 1;
        } else if self.length == 0 {
            let root = self.root.take().unwrap();
            let block = root.block;
            self.alloc.deallocate(block, block.layout);
            self.height = 0;
        }
        proof {
            if self.root is Some {
                let root = self.root->Some_0;
                root.lemma_height_bound(self.height as nat);
            }
        }
        kv
    }

    /// The value stored for `key`, if any.
    pub fn get(&self, key: &K) -> (r: Option<&V>)
        requires
            self.wf(),
        ensures
            r is Some <==> self@.contains_key(*key),
            r matches Some(v) ==> *v == self@[*key],
    {
        if self.length == 0 {
            return None;
        }
        let (found, h) = self.search_tree(key);
        if found {
            let kv = self.kv_at_handle(&h);
            proof {
                self.lemma_wf();
                lemma_map_of_index(self.entries(), self.kv_index(h));
            }
            Some(&kv.1)
        } else {
            None
        }
    }

    /// Whether the map holds `key`.
    pub fn contains_key(&self, key: &K) -> (r: bool)
        requires
            self.wf(),
        ensures
            r == self@.contains_key(*key),
    {
        if self.length == 0 {
            return false;
        }
        let (found, h) = self.search_tree(key);
        if found {
            proof {
                self.lemma_wf();
                lemma_map_of_index(self.entries(), self.kv_index(h));
            }
        }
        found
    }

    /// The pairs in ascending key order.
    pub fn iter(&self) -> (r: Vec<(&K, &V)>)
        requires
            self.wf(),
        ensures
            r@.len() == self.entries().len(),
            forall|i: int|
                0 <= i < r@.len() ==> *(#[trigger] r@[i]).0 == self.entries()[i].0 && *r@[i].1
                    == self.entries()[i].1,
            forall|i: int, j: int| 0 <= i < j < r@.len() ==> key_lt(*(#[trigger] r@[i]).0, *(#[trigger] r@[j]).0),
    {
        let mut out: Vec<(&K, &V)> = Vec::new();
        match &self.root {
            Some(root) => {
                root.collect(Ghost(self.height as nat), self.height, &mut out);
            },
            None => {},
        }
        proof {
            assert forall|i: int| 0 <= i < out@.len() implies *(#[trigger] out@[i]).0 == self.entries()[i].0 && *out@[i].1 == self.entries()[i].1 by {
                assert(out@[0 + i] == out@[i]);
            }
        }
        out
    }
}

/// The map left by inserting the pairs of `ops`, in order, into `m`.
pub open spec fn insert_all<K, V>(m: Map<K, V>, ops: Seq<(K, V)>) -> Map<K, V>
    decreases ops.len(),
{
    if ops.len() == 0 {
        m
    } else {
        insert_all(m, ops.drop_last()).insert(ops.last().0, ops.last().1)
    }
}

/// The keys a map built from a sequence of pairs holds are the sequence's
/// keys.
pub proof fn lemma_map_of_dom<K, V>(s: Seq<(K, V)>)
    ensures
        map_of(s).dom() == keys_of(s).to_set(),
{
    assert forall|k: K| map_of(s).dom().contains(k) <==> #[trigger] keys_of(s).to_set().contains(
        k,
    ) by {
        if map_of(s).dom().contains(k) {
            let i = choose|i: int| 0 <= i < s.len() && s[i].0 == k;
            assert(keys_of(s)[i] == k);
        }
        if keys_of(s).to_set().contains(k) {
            let i = choose|i: int| 0 <= i < keys_of(s).len() && keys_of(s)[i] == k;
            assert(s[i].0 == k);
        }
    }
    assert(map_of(s).dom() =~= keys_of(s).to_set());
}

/// Inserting pairs one after another into an empty map leaves exactly the
/// keys inserted, each with the value inserted for it last; the map then
/// holds as many pairs as there are distinct keys.
pub proof fn lemma_insert_all<K, V>(ops: Seq<(K, V)>)
    ensures
        insert_all(Map::<K, V>::empty(), ops).dom() == keys_of(ops).to_set(),
        insert_all(Map::<K, V>::empty(), ops).dom().finite(),
        insert_all(Map::<K, V>::empty(), ops).dom().len() == keys_of(ops).to_set().len(),
        forall|i: int|
            0 <= i < ops.len() && (forall|j: int| i < j < ops.len() ==> ops[j].0 != ops[i].0)
                ==> #[trigger] insert_all(Map::<K, V>::empty(), ops)[ops[i].0] == ops[i].1,
    decreases ops.len(),
{
    broadcast use vstd::seq_lib::seq_to_set_is_finite;

    let m = insert_all(Map::<K, V>::empty(), ops);
    if ops.len() == 0 {
        assert(keys_of(ops).to_set() =~= Set::<K>::empty());
        assert(m.dom() =~= Set::<K>::empty());
    } else {
        let init = ops.drop_last();
        lemma_insert_all(init);
        assert(keys_of(ops) =~= keys_of(init).push(ops.last().0));
        keys_of(init).lemma_push_to_set_commute(ops.last().0);
        assert(m.dom() =~= keys_of(ops).to_set());
        assert forall|i: int|
            0 <= i < ops.len() && (forall|j: int| i < j < ops.len() ==> ops[j].0 != ops[i].0)
                implies #[trigger] m[ops[i].0] == ops[i].1 by {
            if i < ops.len() - 1 {
                assert(ops[ops.len() - 1].0 != ops[i].0);
                assert(init[i] == ops[i]);
                assert forall|j: int| i < j < init.len() implies init[j].0 != init[i].0 by {
                    assert(init[j] == ops[j]);
                }
            }
        }
    }
}

impl<K: Ord, V, A: Allocator> BTreeMap<K, V, A> {
    /// A consistent map holds exactly `len()` keys.
    pub proof fn lemma_len_counts_keys(&self)
        requires
            self.wf(),
        ensures
            self@.dom().finite(),
            self@.dom().len() == self.spec_len(),
    {
        broadcast use vstd::seq_lib::seq_to_set_is_finite;

        self.lemma_wf();
        let s = self.entries();
        lemma_map_of_dom(s);
        assert(keys_of(s).no_duplicates()) by {
            assert forall|i: int, j: int| 0 <= i < keys_of(s).len() && 0 <= j < keys_of(s).len()
                && i != j implies keys_of(s)[i] != keys_of(s)[j] by {
                assert(keys_of(s)[i] == s[i].0 && keys_of(s)[j] == s[j].0);
            }
        }
        keys_of(s).unique_seq_to_set();
    }

    /// The pairs come out in strictly ascending key order.
    pub proof fn lemma_entries_ascending(&self)
        requires
            self.wf(),
        ensures
            forall|i: int, j: int|
                0 <= i < j < self.entries().len() ==> key_lt(
                    #[trigger] self.entries()[i].0,
                    #[trigger] self.entries()[j].0,
                ),
    {
    }

    /// A key the map lacks is among none of its pairs.
    pub proof fn lemma_absent_key(&self, k: K)
        requires
            self.wf(),
            !self@.contains_key(k),
        ensures
            forall|i: int| 0 <= i < self.entries().len() ==> #[trigger] self.entries()[i].0 != k,
    {
    }

    /// Inserting a key the map lacks and then removing it gives back the
    /// map's length, and the key is among none of the pairs afterwards.
    pub proof fn lemma_insert_then_remove(before: Self, mid: Self, after: Self, k: K, v: V)
        requires
            before.wf(),
            mid.wf(),
            after.wf(),
            !before@.contains_key(k),
            mid@ == before@.insert(k, v),
            after@ == mid@.remove(k),
        ensures
            after.spec_len() == before.spec_len(),
            after@ == before@,
            forall|i: int| 0 <= i < after.entries().len() ==> #[trigger] after.entries()[i].0 != k,
    {
        before.lemma_len_counts_keys();
        after.lemma_len_counts_keys();
        assert(after@ =~= before@);
    }
}

} // verus!
