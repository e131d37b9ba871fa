//! A growable store of nodes reached through keys made of an index and the
//! node's random id. Removing a node destroys it and frees its index, which
//! the next add takes.
use vstd::prelude::*;

use crate::random::random_u32;

verus! {

/// The random id of a node.
pub type NodeId = u32;

/// The index of a node.
pub type KeySize = usize;

/// A key: the index of a node and the id it must carry.
pub type NodeKey = (KeySize, NodeId);

/// The two parts of a key.
pub trait Id {
    /// The id part, as a value.
    spec fn spec_nid(&self) -> NodeId;

    /// The index part, as a value.
    spec fn spec_idx(&self) -> KeySize;

    /// The id part.
    fn nid(&self) -> (r: NodeId)
        ensures
            r == self.spec_nid(),
    ;

    /// The index part.
    fn idx(&self) -> (r: KeySize)
        ensures
            r == self.spec_idx(),
    ;
}

impl Id for NodeKey {
    open spec fn spec_nid(&self) -> NodeId {
        self.1
    }

    open spec fn spec_idx(&self) -> KeySize {
        self.0
    }

    fn nid(&self) -> (r: NodeId) {
        self.1
    }

    fn idx(&self) -> (r: KeySize) {
        self.0
    }
}

/// What a node holds: its id (`None` once destroyed), the key of its
/// parent, and its data.
pub struct NodeView<T> {
    pub id: Option<NodeId>,
    pub parent: Option<NodeKey>,
    pub data: T,
}

/// A node: data with an id and an optional parent key.
#[derive(Clone)]
pub struct Node<T> {
    id: Option<NodeId>,
    parent: Option<NodeKey>,
    pub data: T,
}

impl<T> View for Node<T> {
    type V = NodeView<T>;

    closed spec fn view(&self) -> NodeView<T> {
        NodeView { id: self.id, parent: self.parent, data: self.data }
    }
}

impl<T> Node<T> {
    /// A live node that holds `d`, carries the id `id`, and has no parent.
    pub fn with_id(d: T, id: NodeId) -> (n: Node<T>)
        ensures
            n@ == (NodeView { id: Some(id), parent: None, data: d }),
    {
        Node { id: Some(id), parent: None, data: d }
    }

    /// A live node that holds `d`, carries a freshly drawn random id, and has
    /// no parent.
    pub fn new(d: T) -> (n: Node<T>)
        ensures
            n@.id is Some,
            n@.parent is None,
            n@.data == d,
    {
        let id = random_u32();
        Node::with_id(d, id)
    }

    /// The node's id, `None` once it is destroyed.
    pub fn id(&self) -> (r: &Option<NodeId>)
        ensures
            *r == self@.id,
    {
        &self.id
    }

    /// The node's data.
    pub fn data(&self) -> (r: &T)
        ensures
            *r == self@.data,
    {
        &self.data
    }

    /// Replaces the node's data with `d`; id and parent stay.
    pub fn set_data(&mut self, d: T)
        ensures
            final(self)@ == (NodeView { id: old(self)@.id, parent: old(self)@.parent, data: d }),
    {
        self.data = d;
    }

    /// Destroys the node: its id becomes `None`; parent and data stay.
    pub fn destroy(&mut self)
        ensures
            final(self)@ == (NodeView { id: None, parent: old(self)@.parent, data: old(self)@.data }),
    {
        self.id = None;
    }
}

/// The abstract state of a `NodeManager`: its nodes, and the stack of
/// indices of destroyed nodes whose top (the last element) the next add takes.
#[verifier::ext_equal]
pub struct NodeManagerModel<T> {
    pub nodes: Seq<NodeView<T>>,
    pub dead: Seq<KeySize>,
}

impl<T> NodeManagerModel<T> {
    /// Every freed index is in bounds, occurs once, and holds a destroyed node.
    /// (The converse, `freed_exactly_destroyed`, is kept by every method but
    /// `get_mut`.)
    pub open spec fn wf(self) -> bool {
        &&& forall|k: int| 0 <= k < self.dead.len() ==> #[trigger] self.dead[k] < self.nodes.len()
        &&& forall|k: int| 0 <= k < self.dead.len() ==> self.nodes[#[trigger] self.dead[k] as int].id is None
        &&& forall|j: int, k: int|
            0 <= j < k < self.dead.len() ==> #[trigger] self.dead[j] != #[trigger] self.dead[k]
    }

    /// Whether an index is freed exactly when its node is destroyed. `add`,
    /// `remove` and `set_parent` keep this (see `lemma_freed_exactly_destroyed_kept`),
    /// but it is no part of the invariant: `get_mut` hands out the node, whose
    /// `destroy` a caller may call without freeing its index.
    pub open spec fn freed_exactly_destroyed(self) -> bool {
        forall|i: int|
            0 <= i < self.nodes.len() ==> (#[trigger] self.nodes[i].id is None <==> self.is_freed(i))
    }

    /// Whether index `i` is on the stack of freed indices.
    pub open spec fn is_freed(self, i: int) -> bool {
        exists|k: int| 0 <= k < self.dead.len() && self.dead[k] == i
    }

    /// Whether the node at index `i` is live (not destroyed).
    pub open spec fn is_live(self, i: int) -> bool {
        0 <= i < self.nodes.len() && self.nodes[i].id is Some
    }

    /// The node that `key` reaches: the node at its index, when that node's
    /// id is the key's id.
    pub open spec fn lookup(self, key: NodeKey) -> Option<NodeView<T>> {
        let n = self.nodes[key.0 as int];
        if n.id == Some(key.1) {
            Some(n)
        } else {
            None
        }
    }

    /// The parent key of the node that `key` reaches.
    pub open spec fn parent_key(self, key: NodeKey) -> Option<NodeKey> {
        match self.lookup(key) {
            Some(n) => n.parent,
            None => None,
        }
    }

    /// The node that the parent key of the node that `key` reaches, reaches.
    pub open spec fn parent_node(self, key: NodeKey) -> Option<NodeView<T>> {
        match self.parent_key(key) {
            Some(p) => self.lookup(p),
            None => None,
        }
    }

    /// The state after adding the live node `n`, and its key: `n` takes the
    /// top freed index, or goes after the last node when none is free.
    pub open spec fn added(self, n: NodeView<T>) -> (Self, NodeKey) {
        let nid = n.id->Some_0;
        if self.dead.len() > 0 {
            let idx = self.dead.last();
            (
                NodeManagerModel { nodes: self.nodes.update(idx as int, n), dead: self.dead.drop_last() },
                (idx, nid),
            )
        } else {
            (
                NodeManagerModel { nodes: self.nodes.push(n), dead: self.dead },
                (self.nodes.len() as usize, nid),
            )
        }
    }

    /// The state after removing the node that `key` reaches, and whether one
    /// was removed: it is destroyed and its index freed.
    pub open spec fn removed(self, key: NodeKey) -> (Self, bool) {
        let n = self.nodes[key.0 as int];
        if n.id == Some(key.1) {
            (
                NodeManagerModel {
                    nodes: self.nodes.update(
                        key.0 as int,
                        NodeView { id: None, parent: n.parent, data: n.data },
                    ),
                    dead: self.dead.push(key.0),
                },
                true,
            )
        } else {
            (self, false)
        }
    }

    /// The state after giving the node that `key` reaches the parent `pkey`.
    pub open spec fn parent_set(self, key: NodeKey, pkey: NodeKey) -> Self {
        match self.lookup(key) {
            Some(n) => NodeManagerModel {
                nodes: self.nodes.update(
                    key.0 as int,
                    NodeView { id: n.id, parent: Some(pkey), data: n.data },
                ),
                dead: self.dead,
            },
            None => self,
        }
    }

    /// The live nodes, in index order.
    pub open spec fn live_nodes(self) -> Seq<NodeView<T>> {
        self.nodes.filter(|n: NodeView<T>| n.id is Some)
    }
}

/// A growable store of nodes of type `T`.
pub struct NodeManager<T> {
    nodes: Vec<Node<T>>,
    dead: Vec<KeySize>,
}

impl<T> View for NodeManager<T> {
    type V = NodeManagerModel<T>;

    closed spec fn view(&self) -> NodeManagerModel<T> {
        NodeManagerModel { nodes: self.nodes@.map_values(|n: Node<T>| n@), dead: self.dead@ }
    }
}

impl<T> NodeManager<T> {
    /// The manager's invariant, which every constructor establishes and every
    /// method keeps.
    pub open spec fn wf(&self) -> bool {
        self@.wf()
    }

    /// An empty manager with room reserved for `max` nodes.
    pub fn new(max: usize) -> (m: NodeManager<T>)
        ensures
            m@.nodes == Seq::<NodeView<T>>::empty(),
            m@.dead == Seq::<KeySize>::empty(),
            m.wf(),
    {
        let v: Vec<Node<T>> = Vec::with_capacity(max);
        let m = NodeManager { nodes: v, dead: Vec::new() };
        assert(m@.nodes =~= Seq::<NodeView<T>>::empty());
        m
    }

    /// Adds the live node `n` and returns its key: `n` takes the most
    /// recently freed index, or goes after the last node when none is free.
    pub fn add(&mut self, n: Node<T>) -> (r: NodeKey)
        requires
            old(self).wf(),
            n@.id is Some,
            old(self)@.dead.len() == 0 ==> old(self)@.nodes.len() < usize::MAX,
        ensures
            final(self).wf(),
            (final(self)@, r) == old(self)@.added(n@),
    {
        proof {
            lemma_added_keeps_wf(self@, n@);
        }
        let nid = n.id().unwrap();
        let idx;
        match self.dead.pop() {
            Some(i) => {
                idx = i;
                proof {
                    assert(old(self)@.dead[old(self)@.dead.len() - 1] < old(self)@.nodes.len());
                }
                self.nodes.set(idx, n);
            },
            None => {
                idx = self.nodes.len();
                self.nodes.push(n);
            },
        }
        assert(self@ =~= old(self)@.added(n@).0);
        (idx, nid)
    }

    /// Removes the node that `key` reaches: it is destroyed and its index
    /// freed. Returns whether there was one.
    pub fn remove(&mut self, key: NodeKey) -> (r: bool)
        requires
            old(self).wf(),
            key.0 < old(self)@.nodes.len(),
        ensures
            final(self).wf(),
            (final(self)@, r) == old(self)@.removed(key),
    {
        proof {
            lemma_removed_keeps_wf(self@, key);
        }
        let node = &mut self.nodes[key.idx()];
        if let Some(id) = *node.id() {
            if id == key.nid() {
                node.destroy();
                self.dead.push(key.idx());
                assert(self@ =~= old(self)@.removed(key).0);
                return true;
            }
        }
        false
    }

    /// The node that `key` reaches, if any.
    pub fn get(&self, key: NodeKey) -> (r: Option<&Node<T>>)
        requires
            key.0 < self@.nodes.len(),
        ensures
            match r {
                Some(n) => self@.lookup(key) == Some(n@),
                None => self@.lookup(key) is None,
            },
    {
        let node = &self.nodes[key.idx()];
        if let Some(id) = *node.id() {
            if id == key.nid() {
                return Some(node);
            }
        }
        None
    }

    /// The node that `key` reaches, if any, to be changed in place.
    pub fn get_mut(&mut self, key: NodeKey) -> (r: Option<&mut Node<T>>)
        requires
            old(self).wf(),
            key.0 < old(self)@.nodes.len(),
        ensures
            final(self).wf(),
            match r {
                Some(n) => {
                    &&& old(self)@.lookup(key) == Some(mut_ref_current(n)@)
                    &&& final(self)@ == NodeManagerModel {
                        nodes: old(self)@.nodes.update(key.0 as int, mut_ref_future(n)@),
                        dead: old(self)@.dead,
                    }
                },
                None => old(self)@.lookup(key) is None && final(self)@ == old(self)@,
            },
    {
        let node = &mut self.nodes[key.idx()];
        if let Some(id) = *node.id() {
            if id == key.nid() {
                return Some(node);
            }
        }
        None
    }

    /// Gives the node that `key` reaches the parent key `pkey`; does nothing
    /// when `key` reaches no node.
    pub fn set_parent(&mut self, key: NodeKey, pkey: NodeKey)
        requires
            old(self).wf(),
            key.0 < old(self)@.nodes.len(),
        ensures
            final(self).wf(),
            final(self)@ == old(self)@.parent_set(key, pkey),
    {
        if let Some(node) = self.get_mut(key) {
            node.parent = Some(pkey);
        }
    }

    /// The node that the parent key of the node that `key` reaches, reaches.
    pub fn get_parent(&mut self, key: NodeKey) -> (r: Option<&Node<T>>)
        requires
            key.0 < old(self)@.nodes.len(),
            old(self)@.parent_key(key) is Some ==> old(self)@.parent_key(key)->Some_0.0 < old(
                self,
            )@.nodes.len(),
        ensures
            final(self)@ == old(self)@,
            match r {
                Some(n) => old(self)@.parent_node(key) == Some(n@),
                None => old(self)@.parent_node(key) is None,
            },
    {
        if let Some(node) = self.get(key) {
            if let Some(pkey) = node.parent {
                return self.get(pkey);
            }
        }
        None
    }

    /// The parent key of the node that `key` reaches.
    pub fn get_pkey(&mut self, key: NodeKey) -> (r: Option<NodeKey>)
        requires
            key.0 < old(self)@.nodes.len(),
        ensures
            final(self)@ == old(self)@,
            r == old(self)@.parent_key(key),
    {
        if let Some(node) = self.get(key) {
            return node.parent;
        }
        None
    }

    /// The live nodes, in index order.
    pub fn box_iter(&self) -> (r: Vec<&Node<T>>)
        ensures
            r@.map_values(|n: &Node<T>| n@) == self@.live_nodes(),
    {
        let mut v: Vec<&Node<T>> = Vec::new();
        let n = self.nodes.len();
        let mut i: usize = 0;
        while i < n
            invariant
                n == self@.nodes.len(),
                i <= n,
                v@.map_values(|x: &Node<T>| x@) == self@.nodes.take(i as int).filter(
                    |x: NodeView<T>| x.id is Some,
                ),
            decreases n - i,
        {
            let node = &self.nodes[i];
            proof {
                reveal(Seq::filter);
                assert(self@.nodes.take(i + 1).drop_last() =~= self@.nodes.take(i as int));
                assert(self@.nodes.take(i + 1).last() == node@);
            }
            let ghost before = v@;
            if node.id().is_some() {
                v.push(node);
                assert(v@.map_values(|x: &Node<T>| x@) =~= before.map_values(|x: &Node<T>| x@).push(node@));
            }
            i = i + 1;
        }
        assert(self@.nodes.take(n as int) =~= self@.nodes);
        v
    }
}

/// What an add stores is what its key reaches, and no other index changes:
/// the key handed out is the top freed index (or the next new index) with
/// the node's id, and it reaches the node.
pub proof fn lemma_added_then_lookup<T>(m: NodeManagerModel<T>, n: NodeView<T>)
    requires
        m.wf(),
        n.id is Some,
        m.nodes.len() <= usize::MAX,
    ensures
        m.added(n).1.1 == n.id->Some_0,
        m.dead.len() > 0 ==> m.added(n).1.0 == m.dead.last(),
        m.dead.len() == 0 ==> m.added(n).1.0 == m.nodes.len(),
        m.added(n).0.lookup(m.added(n).1) == Some(n),
        forall|key: NodeKey|
            key.0 < m.nodes.len() && key.0 != m.added(n).1.0 ==> #[trigger] m.added(n).0.lookup(key)
                == m.lookup(key),
{
    if m.dead.len() > 0 {
        assert(m.dead[m.dead.len() - 1] < m.nodes.len());
    }
}

/// A remove succeeds exactly when the key reaches a node; afterwards the key
/// reaches nothing, and every other index reaches what it did.
pub proof fn lemma_removed_then_lookup<T>(m: NodeManagerModel<T>, key: NodeKey)
    requires
        m.wf(),
        key.0 < m.nodes.len(),
    ensures
        m.removed(key).1 <==> m.lookup(key) is Some,
        m.removed(key).0.lookup(key) is None,
        forall|k2: NodeKey|
            k2.0 < m.nodes.len() && k2.0 != key.0 ==> #[trigger] m.removed(key).0.lookup(k2)
                == m.lookup(k2),
{
}

/// The index freed by a remove is the one the next add takes.
pub proof fn lemma_removed_slot_reused_first<T>(m: NodeManagerModel<T>, key: NodeKey, n: NodeView<T>)
    requires
        m.wf(),
        key.0 < m.nodes.len(),
        m.removed(key).1,
        n.id is Some,
    ensures
        m.removed(key).0.added(n).1 == (key.0, n.id->Some_0),
{
}

/// A key that reaches nothing keeps reaching nothing across an add, unless
/// the add's node carries the key's id.
pub proof fn lemma_unreached_key_stays_unreached<T>(m: NodeManagerModel<T>, key: NodeKey, n: NodeView<T>)
    requires
        m.wf(),
        key.0 < m.nodes.len(),
        m.lookup(key) is None,
        n.id is Some,
        n.id != Some(key.1),
    ensures
        m.added(n).0.lookup(key) is None,
{
    if m.dead.len() > 0 {
        assert(m.dead[m.dead.len() - 1] < m.nodes.len());
    }
}

/// A parent set through a key is what that key's parent key reads back; the
/// node keeps its id and data.
pub proof fn lemma_parent_set_then_parent_key<T>(m: NodeManagerModel<T>, key: NodeKey, pkey: NodeKey)
    requires
        key.0 < m.nodes.len(),
        m.lookup(key) is Some,
    ensures
        m.parent_set(key, pkey).parent_key(key) == Some(pkey),
        m.parent_set(key, pkey).lookup(key)->Some_0.data == m.lookup(key)->Some_0.data,
{
}

/// Giving a node a parent keeps the invariant.
pub proof fn lemma_parent_set_keeps_wf<T>(m: NodeManagerModel<T>, key: NodeKey, pkey: NodeKey)
    requires
        m.wf(),
        key.0 < m.nodes.len(),
    ensures
        m.parent_set(key, pkey).wf(),
{
    let m2 = m.parent_set(key, pkey);
    assert forall|k: int| 0 <= k < m2.dead.len() implies m2.nodes[#[trigger] m2.dead[k] as int].id is None by {
        assert(m.dead[k] < m.nodes.len());
    }
}

/// An empty manager has every index freed exactly when its node is
/// destroyed, and adding a live node, removing, and setting a parent keep it
/// so; then an add never overwrites a live node.
pub proof fn lemma_freed_exactly_destroyed_kept<T>(
    m: NodeManagerModel<T>,
    n: NodeView<T>,
    key: NodeKey,
    pkey: NodeKey,
)
    requires
        m.wf(),
        m.freed_exactly_destroyed(),
        n.id is Some,
        key.0 < m.nodes.len(),
    ensures
        (NodeManagerModel::<T> { nodes: Seq::empty(), dead: Seq::empty() }).freed_exactly_destroyed(),
        m.added(n).0.freed_exactly_destroyed(),
        m.removed(key).0.freed_exactly_destroyed(),
        m.parent_set(key, pkey).freed_exactly_destroyed(),
        m.dead.len() > 0 ==> !m.is_live(m.dead.last() as int),
{
    let a = m.added(n).0;
    if m.dead.len() > 0 {
        let last = m.dead.len() - 1;
        let idx = m.dead[last];
        assert(idx < m.nodes.len());
        assert forall|i: int| 0 <= i < a.nodes.len() implies (#[trigger] a.nodes[i].id is None
            <==> a.is_freed(i)) by {
            if i == idx {
                if a.is_freed(i) {
                    let k = choose|k: int| 0 <= k < a.dead.len() && a.dead[k] == i;
                    assert(m.dead[k] != m.dead[last]);
                }
            } else {
                if m.is_freed(i) {
                    let k = choose|k: int| 0 <= k < m.dead.len() && m.dead[k] == i;
                    assert(k != last);
                    assert(a.dead[k] == i);
                }
                if a.is_freed(i) {
                    let k = choose|k: int| 0 <= k < a.dead.len() && a.dead[k] == i;
                    assert(m.dead[k] == i);
                }
            }
        }
    } else {
        assert forall|i: int| 0 <= i < a.nodes.len() implies (#[trigger] a.nodes[i].id is None
            <==> a.is_freed(i)) by {
            if i < m.nodes.len() {
                assert(a.nodes[i] == m.nodes[i]);
            }
        }
    }
    let r = m.removed(key).0;
    if m.removed(key).1 {
        assert forall|i: int| 0 <= i < r.nodes.len() implies (#[trigger] r.nodes[i].id is None
            <==> r.is_freed(i)) by {
            if i == key.0 {
                assert(r.dead[r.dead.len() - 1] == key.0);
            } else {
                if m.is_freed(i) {
                    let k = choose|k: int| 0 <= k < m.dead.len() && m.dead[k] == i;
                    assert(r.dead[k] == i);
                }
                if r.is_freed(i) {
                    let k = choose|k: int| 0 <= k < r.dead.len() && r.dead[k] == i;
                    assert(k < m.dead.len());
                    assert(m.dead[k] == i);
                }
            }
        }
    }
    let p = m.parent_set(key, pkey);
    assert forall|i: int| 0 <= i < p.nodes.len() implies (#[trigger] p.nodes[i].id is None
        <==> p.is_freed(i)) by {
        assert(p.nodes[i].id == m.nodes[i].id);
        assert(p.dead == m.dead);
        assert(m.nodes[i].id is None <==> m.is_freed(i));
    }
    if m.dead.len() > 0 {
        assert(m.dead[m.dead.len() - 1] < m.nodes.len());
    }
}

/// A key reaches the node at its index exactly when that node carries the
/// key's id, and then it reaches that node.
pub proof fn lemma_lookup_reaches_matching_node<T>(m: NodeManagerModel<T>, key: NodeKey)
    requires
        key.0 < m.nodes.len(),
    ensures
        m.lookup(key) is Some <==> m.nodes[key.0 as int].id == Some(key.1),
        m.lookup(key) is Some ==> m.lookup(key) == Some(m.nodes[key.0 as int]),
{
}

/// The live-node list of an empty manager is empty.
pub proof fn lemma_live_nodes_of_empty<T>(dead: Seq<KeySize>)
    ensures
        (NodeManagerModel::<T> { nodes: Seq::empty(), dead }).live_nodes() =~= Seq::<NodeView<T>>::empty(),
{
    reveal(Seq::filter);
}

/// Appending a node appends it to the live-node list exactly when it is live:
/// by induction from the empty manager, the list holds every live node once,
/// in index order, and nothing else.
pub proof fn lemma_live_nodes_of_push<T>(m: NodeManagerModel<T>, x: NodeView<T>, dead: Seq<KeySize>)
    ensures
        (NodeManagerModel { nodes: m.nodes.push(x), dead }).live_nodes() =~= (if x.id is Some {
            m.live_nodes().push(x)
        } else {
            m.live_nodes()
        }),
{
    reveal(Seq::filter);
    assert(m.nodes.push(x).drop_last() =~= m.nodes);
}

/// Every live node is in the live-node list, every node in it is live, and
/// the list is no longer than the node list.
pub proof fn lemma_live_nodes_members<T>(m: NodeManagerModel<T>)
    ensures
        forall|i: int| #[trigger] m.is_live(i) ==> m.live_nodes().contains(m.nodes[i]),
        forall|j: int| 0 <= j < m.live_nodes().len() ==> (#[trigger] m.live_nodes()[j]).id is Some,
        m.live_nodes().len() <= m.nodes.len(),
{
    let p = |n: NodeView<T>| n.id is Some;
    assert forall|i: int| #[trigger] m.is_live(i) implies m.live_nodes().contains(m.nodes[i]) by {
        assert(m.nodes.contains(m.nodes[i]));
        m.nodes.lemma_filter_contains_rev(p, m.nodes[i]);
    }
    assert forall|j: int| 0 <= j < m.live_nodes().len() implies (#[trigger] m.live_nodes()[j]).id is Some by {
        m.nodes.lemma_filter_pred(p, j);
    }
    m.nodes.lemma_filter_len(p);
}

/// Adding a node when no index is freed appends it to the live-node list.
pub proof fn lemma_added_appends_live_node<T>(m: NodeManagerModel<T>, n: NodeView<T>)
    requires
        m.dead.len() == 0,
        n.id is Some,
    ensures
        m.added(n).0.live_nodes() =~= m.live_nodes().push(n),
{
    lemma_live_nodes_of_push(m, n, m.dead);
}

/// The parent node of a key is what its parent key reaches, and nothing when
/// it has no parent key: `get_parent` is `get` of `get_pkey`.
pub proof fn lemma_parent_node_is_lookup_of_parent_key<T>(m: NodeManagerModel<T>, key: NodeKey)
    ensures
        m.parent_node(key) == (match m.parent_key(key) {
            Some(p) => m.lookup(p),
            None => None,
        }),
{
}

/// A key that reaches no node has neither parent key nor parent node; in
/// particular a removed key has none.
pub proof fn lemma_unreached_key_has_no_parent<T>(m: NodeManagerModel<T>, key: NodeKey)
    requires
        key.0 < m.nodes.len(),
    ensures
        m.lookup(key) is None ==> m.parent_key(key) is None && m.parent_node(key) is None,
        m.removed(key).0.parent_key(key) is None,
        m.removed(key).0.parent_node(key) is None,
{
}

/// The parent key reads the parent field of the node that the key reaches.
pub proof fn lemma_parent_key_of_reached_node<T>(m: NodeManagerModel<T>, key: NodeKey)
    requires
        key.0 < m.nodes.len(),
        m.nodes[key.0 as int].id == Some(key.1),
    ensures
        m.parent_key(key) == m.nodes[key.0 as int].parent,
{
}

/// After a node is given the parent `pkey`, its parent node is what `pkey`
/// reaches (and nothing further up the chain).
pub proof fn lemma_parent_node_after_set<T>(m: NodeManagerModel<T>, key: NodeKey, pkey: NodeKey)
    requires
        key.0 < m.nodes.len(),
        pkey.0 < m.nodes.len(),
        m.lookup(key) is Some,
    ensures
        m.parent_set(key, pkey).parent_key(key) == Some(pkey),
        m.parent_set(key, pkey).parent_node(key) == m.parent_set(key, pkey).lookup(pkey),
        pkey.0 != key.0 ==> m.parent_set(key, pkey).parent_node(key) == m.lookup(pkey),
{
}

/// Adding a live node keeps the invariant.
pub proof fn lemma_added_keeps_wf<T>(m: NodeManagerModel<T>, n: NodeView<T>)
    requires
        m.wf(),
        n.id is Some,
    ensures
        m.added(n).0.wf(),
{
    let m2 = m.added(n).0;
    if m.dead.len() > 0 {
        let last = m.dead.len() - 1;
        assert(m.dead[last] < m.nodes.len());
        assert forall|k: int| 0 <= k < m2.dead.len() implies m2.nodes[#[trigger] m2.dead[k] as int].id is None by {
            assert(m.dead[k] != m.dead[last]);
            assert(m.dead[k] < m.nodes.len());
        }
        assert forall|k: int| 0 <= k < m2.dead.len() implies #[trigger] m2.dead[k] < m2.nodes.len() by {
            assert(m.dead[k] < m.nodes.len());
        }
        assert forall|j: int, k: int| 0 <= j < k < m2.dead.len() implies #[trigger] m2.dead[j] != #[trigger] m2.dead[k] by {
            assert(m.dead[j] != m.dead[k]);
        }
    } else {
        assert forall|k: int| 0 <= k < m2.dead.len() implies m2.nodes[#[trigger] m2.dead[k] as int].id is None by {
            assert(m.dead[k] < m.nodes.len());
        }
    }
}

/// Removing keeps the invariant.
pub proof fn lemma_removed_keeps_wf<T>(m: NodeManagerModel<T>, key: NodeKey)
    requires
        m.wf(),
        key.0 < m.nodes.len(),
    ensures
        m.removed(key).0.wf(),
{
    let m2 = m.removed(key).0;
    if m.removed(key).1 {
        assert forall|k: int| 0 <= k < m2.dead.len() implies m2.nodes[#[trigger] m2.dead[k] as int].id is None by {
            if k < m.dead.len() {
                assert(m.dead[k] < m.nodes.len());
            }
        }
        assert forall|k: int| 0 <= k < m2.dead.len() implies #[trigger] m2.dead[k] < m2.nodes.len() by {
            if k < m.dead.len() {
                assert(m.dead[k] < m.nodes.len());
            }
        }
        assert forall|j: int, k: int| 0 <= j < k < m2.dead.len() implies #[trigger] m2.dead[j] != #[trigger] m2.dead[k] by {
            if k < m.dead.len() {
                assert(m.dead[j] != m.dead[k]);
            } else {
                assert(m.nodes[m.dead[j] as int].id is None);
            }
        }
    }
}

} // verus!
