//! The node arena: a keyed store of tree nodes with exclusive checkout.
//!
//! Nodes are addressed by the content hash of the game state they hold.
//! The search algorithm checks one node out for mutation at a time
//! ([`NodeList::take`]) and returns it ([`NodeList::restore`]) before
//! touching another, so the arena never hands out two live handles.

use vstd::prelude::*;

verus! {

use crate::game::Game;
use crate::tree::{MoveTreeNode, NodeID};

/// The map a sequence of key–node pairs denotes: later pairs shadow
/// earlier ones (the arena keeps its keys unique, so nothing is shadowed).
pub open spec fn seq_to_map<G: Game>(s: Seq<(NodeID, MoveTreeNode<G>)>) -> Map<
    NodeID,
    MoveTreeNode<G>,
>
    decreases s.len(),
{
    if s.len() == 0 {
        Map::empty()
    } else {
        seq_to_map(s.drop_last()).insert(s.last().0, s.last().1)
    }
}

/// A key is in the map exactly when some pair of the sequence carries it.
pub proof fn lemma_seq_to_map_contains<G: Game>(s: Seq<(NodeID, MoveTreeNode<G>)>, k: NodeID)
    ensures
        seq_to_map(s).contains_key(k) <==> exists|i: int| 0 <= i < s.len() && s[i].0 == k,
    decreases s.len(),
{
    if s.len() > 0 {
        lemma_seq_to_map_contains(s.drop_last(), k);
        if seq_to_map(s).contains_key(k) && s.last().0 != k {
            let i = choose|i: int| 0 <= i < s.drop_last().len() && s.drop_last()[i].0 == k;
            assert(s[i].0 == k);
        }
        if exists|i: int| 0 <= i < s.len() && s[i].0 == k {
            let i = choose|i: int| 0 <= i < s.len() && s[i].0 == k;
            if i < s.len() - 1 {
                assert(s.drop_last()[i].0 == k);
            }
        }
    }
}

/// Distinct keys, pairwise.
pub open spec fn unique_keys<G: Game>(s: Seq<(NodeID, MoveTreeNode<G>)>) -> bool {
    forall|i: int, j: int| 0 <= i < j < s.len() ==> s[i].0 != s[j].0
}

/// Under unique keys, the pair at any index gives the map's value at
/// its key.
pub proof fn lemma_seq_to_map_index<G: Game>(s: Seq<(NodeID, MoveTreeNode<G>)>, i: int)
    requires
        unique_keys(s),
        0 <= i < s.len(),
    ensures
        seq_to_map(s).contains_key(s[i].0),
        seq_to_map(s)[s[i].0] == s[i].1,
    decreases s.len(),
{
    lemma_seq_to_map_contains(s, s[i].0);
    if i < s.len() - 1 {
        assert(s.drop_last()[i] == s[i]);
        lemma_seq_to_map_index(s.drop_last(), i);
    }
}

/// The arena. Keys are unique, and the denoted map is the arena's view.
pub struct NodeList<G: Game> {
    pub nodes: Vec<(NodeID, MoveTreeNode<G>)>,
}

impl<G: Game> NodeList<G> {
    /// The arena's structural invariant: one pair per key.
    pub open spec fn wf(self) -> bool {
        unique_keys(self.nodes@)
    }

    /// The arena as a map from key to stored node.
    pub open spec fn view(self) -> Map<NodeID, MoveTreeNode<G>> {
        seq_to_map(self.nodes@)
    }

    /// An empty arena.
    pub fn new() -> (r: Self)
        ensures
            r.wf(),
            r@ == Map::<NodeID, MoveTreeNode<G>>::empty(),
    {
        NodeList { nodes: Vec::new() }
    }

    /// The index of the pair carrying `id`, if any.
    fn find(&self, id: NodeID) -> (r: Option<usize>)
        ensures
            match r {
                Some(i) => i < self.nodes@.len() && self.nodes@[i as int].0 == id,
                None => forall|i: int| 0 <= i < self.nodes@.len() ==> self.nodes@[i].0 != id,
            },
    {
        let mut i: usize = 0;
        while i < self.nodes.len()
            invariant
                i <= self.nodes@.len(),
                forall|j: int| 0 <= j < i ==> self.nodes@[j].0 != id,
            decreases self.nodes@.len() - i,
        {
            if self.nodes[i].0 == id {
                return Some(i);
            }
            i = i + 1;
        }
        None
    }

    /// Whether a node is stored under `id`.
    pub fn contains(&self, id: NodeID) -> (r: bool)
        ensures
            r == self@.contains_key(id),
    {
        proof {
            lemma_seq_to_map_contains(self.nodes@, id);
        }
        self.find(id).is_some()
    }

    /// Stores `node` under the content hash of its game state and returns
    /// that key; a node already stored under the same key is replaced.
    pub fn add(&mut self, node: MoveTreeNode<G>) -> (r: NodeID)
        requires
            old(self).wf(),
        ensures
            final(self).wf(),
            final(self)@ == old(self)@.insert(r, node),
    {
        let id = node.game.get_hash();
        self.restore(id, node);
        id
    }

    /// Stores `node` under the content hash of its game state unless a
    /// node already sits there — transpositions share the stored node,
    /// whose statistics survive — and returns that key.
    pub fn add_if_absent(&mut self, node: MoveTreeNode<G>) -> (r: NodeID)
        requires
            old(self).wf(),
        ensures
            final(self).wf(),
            final(self)@.contains_key(r),
            old(self)@.contains_key(r) ==> final(self)@ == old(self)@,
            !old(self)@.contains_key(r) ==> final(self)@ == old(self)@.insert(r, node),
    {
        let id = node.game.get_hash();
        if !self.contains(id) {
            self.restore(id, node);
        }
        id
    }

    /// Checks the node stored under `id` out of the arena, removing it.
    pub fn take(&mut self, id: NodeID) -> (r: MoveTreeNode<G>)
        requires
            old(self).wf(),
            old(self)@.contains_key(id),
        ensures
            final(self).wf(),
            final(self)@ == old(self)@.remove(id),
            r == old(self)@[id],
    {
        proof {
            lemma_seq_to_map_contains(self.nodes@, id);
        }
        let i = self.find(id).unwrap();
        proof {
            lemma_seq_to_map_index(self.nodes@, i as int);
            lemma_remove_maps_to_remove(self.nodes@, i as int);
        }
        let pair = self.nodes.remove(i);
        pair.1
    }

    /// Returns a checked-out node to the arena under its key, or stores a
    /// fresh node under a chosen key.
    pub fn restore(&mut self, id: NodeID, node: MoveTreeNode<G>)
        requires
            old(self).wf(),
        ensures
            final(self).wf(),
            final(self)@ == old(self)@.insert(id, node),
    {
        proof {
            lemma_seq_to_map_contains(self.nodes@, id);
        }
        match self.find(id) {
            Some(i) => {
                proof {
                    lemma_remove_maps_to_remove(self.nodes@, i as int);
                }
                self.nodes.remove(i);
                proof {
                    lemma_seq_to_map_contains(self.nodes@, id);
                }
                self.nodes.push((id, node));
                proof {
                    assert(self.nodes@.drop_last() =~= old(self).nodes@.remove(i as int));
                    assert(self@ =~= old(self)@.insert(id, node));
                }
            },
            None => {
                self.nodes.push((id, node));
                proof {
                    assert(self.nodes@.drop_last() =~= old(self).nodes@);
                    assert(self@ =~= old(self)@.insert(id, node));
                }
            },
        }
    }

    /// A read-only view of the node stored under `id`.
    pub fn get(&self, id: NodeID) -> (r: &MoveTreeNode<G>)
        requires
            self.wf(),
            self@.contains_key(id),
        ensures
            *r == self@[id],
    {
        proof {
            lemma_seq_to_map_contains(self.nodes@, id);
        }
        let i = self.find(id).unwrap();
        proof {
            lemma_seq_to_map_index(self.nodes@, i as int);
        }
        &self.nodes[i].1
    }

    /// How many nodes the arena holds.
    pub fn len(&self) -> (r: usize)
        ensures
            r == self.nodes@.len(),
    {
        self.nodes.len()
    }
}

/// Whether `c` is recorded as a child of node `n`.
pub open spec fn is_child_of<G: Game>(n: MoveTreeNode<G>, c: NodeID) -> bool {
    exists|i: int| 0 <= i < n.children@.len() && n.children@[i].1 == c
}

/// Every child link of a stored node leads to a stored node.
pub open spec fn closed<G: Game>(m: Map<NodeID, MoveTreeNode<G>>) -> bool {
    forall|id: NodeID, c: NodeID|
        m.contains_key(id) && #[trigger] is_child_of(m[id], c) ==> m.contains_key(c)
}

/// A chain of arena keys in which each next key is a recorded child of
/// the stored node at the previous key.
pub open spec fn is_path<G: Game>(m: Map<NodeID, MoveTreeNode<G>>, s: Seq<NodeID>) -> bool {
    forall|i: int|
        0 <= i < s.len() - 1 ==> m.contains_key(#[trigger] s[i]) && is_child_of(m[s[i]], s[i + 1])
}

/// `id` is `root` or lies below it through recorded child links of
/// stored nodes.
pub open spec fn reachable<G: Game>(
    m: Map<NodeID, MoveTreeNode<G>>,
    root: NodeID,
    id: NodeID,
) -> bool {
    exists|s: Seq<NodeID>| s.len() >= 1 && s[0] == root && s.last() == id && is_path(m, s)
}

/// The root reaches itself.
pub proof fn lemma_reach_self<G: Game>(m: Map<NodeID, MoveTreeNode<G>>, root: NodeID)
    ensures
        reachable(m, root, root),
{
    let s = seq![root];
    assert(is_path(m, s));
    assert(s.last() == root);
}

/// A recorded child of a reachable stored node is reachable.
pub proof fn lemma_reach_child<G: Game>(
    m: Map<NodeID, MoveTreeNode<G>>,
    root: NodeID,
    p: NodeID,
    c: NodeID,
)
    requires
        reachable(m, root, p),
        m.contains_key(p),
        is_child_of(m[p], c),
    ensures
        reachable(m, root, c),
{
    let s = choose|s: Seq<NodeID>| s.len() >= 1 && s[0] == root && s.last() == p && is_path(m, s);
    let s2 = s.push(c);
    assert forall|i: int| 0 <= i < s2.len() - 1 implies m.contains_key(#[trigger] s2[i])
        && is_child_of(m[s2[i]], s2[i + 1]) by {
        if i < s.len() - 1 {
            assert(s2[i] == s[i] && s2[i + 1] == s[i + 1]);
        } else {
            assert(s2[i] == s.last() && s2[i + 1] == c);
        }
    }
    assert(is_path(m, s2));
    assert(s2[0] == root && s2.last() == c && s2.len() >= 1);
}

/// A node with no recorded children reaches nothing but itself.
pub proof fn lemma_reach_only_self<G: Game>(m: Map<NodeID, MoveTreeNode<G>>, root: NodeID)
    requires
        m.contains_key(root),
        m[root].children@.len() == 0,
    ensures
        forall|id: NodeID| #[trigger] reachable(m, root, id) ==> id == root,
{
    assert forall|id: NodeID| #[trigger] reachable(m, root, id) implies id == root by {
        let s = choose|s: Seq<NodeID>|
            s.len() >= 1 && s[0] == root && s.last() == id && is_path(m, s);
        if s.len() >= 2 {
            let seed = s[0];
            assert(m.contains_key(s[0]) && is_child_of(m[s[0]], s[1]));
            let j = choose|j: int|
                0 <= j < m[root].children@.len() && m[root].children@[j].1 == s[1];
            assert(false);
        }
    }
}

/// Along any child path whose nodes are stored, a key list that holds
/// the path's start and is closed under present child links also holds
/// its end.
pub proof fn lemma_path_complete<G: Game>(
    m: Map<NodeID, MoveTreeNode<G>>,
    refd: Seq<NodeID>,
    s: Seq<NodeID>,
)
    requires
        s.len() >= 1,
        is_path(m, s),
        refd.contains(s[0]),
        m.contains_key(s.last()),
        forall|x: NodeID, c: NodeID|
            refd.contains(x) && m.contains_key(x) && #[trigger] is_child_of(m[x], c)
                && m.contains_key(c) ==> refd.contains(c),
    ensures
        refd.contains(s.last()),
    decreases s.len(),
{
    if s.len() > 1 {
        let s1 = s.drop_last();
        assert forall|i: int| 0 <= i < s1.len() - 1 implies m.contains_key(#[trigger] s1[i])
            && is_child_of(m[s1[i]], s1[i + 1]) by {
            assert(s1[i] == s[i] && s1[i + 1] == s[i + 1]);
        }
        assert(s1[0] == s[0]);
        assert(s1.last() == s[s.len() - 2]);
        assert(m.contains_key(s[s.len() - 2]) && is_child_of(m[s[s.len() - 2]], s.last()));
        lemma_path_complete(m, refd, s1);
    }
}

/// Any key list that holds the root and is closed under present child
/// links holds every stored reachable key.
pub proof fn lemma_closed_list_complete<G: Game>(
    m: Map<NodeID, MoveTreeNode<G>>,
    root: NodeID,
    refd: Seq<NodeID>,
    id: NodeID,
)
    requires
        refd.contains(root),
        forall|x: NodeID, c: NodeID|
            refd.contains(x) && m.contains_key(x) && #[trigger] is_child_of(m[x], c)
                && m.contains_key(c) ==> refd.contains(c),
        reachable(m, root, id),
        m.contains_key(id),
    ensures
        refd.contains(id),
{
    let s = choose|s: Seq<NodeID>| s.len() >= 1 && s[0] == root && s.last() == id && is_path(m, s);
    lemma_path_complete(m, refd, s);
}

/// After a sweep that kept exactly the stored keys reachable from
/// `root`, with their nodes untouched, every kept key is reachable from
/// `root` inside the swept arena itself: the paths that witnessed
/// reachability survive the sweep.
pub proof fn lemma_gc_result_reachable<G: Game>(
    pre: Map<NodeID, MoveTreeNode<G>>,
    post: Map<NodeID, MoveTreeNode<G>>,
    root: NodeID,
)
    requires
        forall|id: NodeID|
            post.contains_key(id) <==> (pre.contains_key(id) && reachable(pre, root, id)),
        forall|id: NodeID| post.contains_key(id) ==> post[id] == pre[id],
    ensures
        forall|id: NodeID| post.contains_key(id) ==> reachable(post, root, id),
{
    assert forall|id: NodeID| post.contains_key(id) implies reachable(post, root, id) by {
        let s = choose|s: Seq<NodeID>|
            s.len() >= 1 && s[0] == root && s.last() == id && is_path(pre, s);
        assert forall|i: int| 0 <= i < s.len() implies post.contains_key(#[trigger] s[i]) by {
            let sp = s.take(i + 1);
            assert forall|j: int| 0 <= j < sp.len() - 1 implies pre.contains_key(#[trigger] sp[j])
                && is_child_of(pre[sp[j]], sp[j + 1]) by {
                assert(sp[j] == s[j] && sp[j + 1] == s[j + 1]);
            }
            assert(is_path(pre, sp));
            assert(sp[0] == root && sp.last() == s[i] && sp.len() >= 1);
            assert(reachable(pre, root, s[i]));
            if i < s.len() - 1 {
                assert(pre.contains_key(s[i]));
            } else {
                assert(s[i] == id);
            }
        }
        assert forall|i: int| 0 <= i < s.len() - 1 implies post.contains_key(#[trigger] s[i])
            && is_child_of(post[s[i]], s[i + 1]) by {
            assert(post[s[i]] == pre[s[i]]);
        }
        assert(is_path(post, s));
    }
}

/// The denoted map's domain is finite and no larger than the sequence.
pub proof fn lemma_dom_finite<G: Game>(s: Seq<(NodeID, MoveTreeNode<G>)>)
    ensures
        seq_to_map(s).dom().finite(),
        seq_to_map(s).dom().len() <= s.len(),
    decreases s.len(),
{
    if s.len() > 0 {
        lemma_dom_finite(s.drop_last());
        assert(seq_to_map(s).dom() =~= seq_to_map(s.drop_last()).dom().insert(s.last().0));
    }
}

/// Whether a plain key vector holds `x`.
fn vec_contains(v: &Vec<NodeID>, x: NodeID) -> (r: bool)
    ensures
        r == v@.contains(x),
{
    let mut i: usize = 0;
    while i < v.len()
        invariant
            i <= v@.len(),
            forall|j: int| 0 <= j < i ==> v@[j] != x,
        decreases v@.len() - i,
    {
        if v[i] == x {
            return true;
        }
        i = i + 1;
    }
    false
}

impl<G: Game> NodeList<G> {
    /// The child keys of the node stored under `id`, in child order.
    pub(crate) fn child_ids(&self, id: NodeID) -> (r: Vec<NodeID>)
        requires
            self.wf(),
            self@.contains_key(id),
        ensures
            r@.len() == self@[id].children@.len(),
            forall|i: int| 0 <= i < r@.len() ==> r@[i] == self@[id].children@[i].1,
    {
        let node = self.get(id);
        let mut r: Vec<NodeID> = Vec::new();
        let mut i: usize = 0;
        while i < node.children.len()
            invariant
                *node == self@[id],
                i <= node.children@.len(),
                r@.len() == i,
                forall|j: int| 0 <= j < i ==> r@[j] == node.children@[j].1,
            decreases node.children@.len() - i,
        {
            r.push(node.children[i].1);
            i = i + 1;
        }
        r
    }

    /// All stored keys, in storage order.
    fn key_list(&self) -> (r: Vec<NodeID>)
        requires
            self.wf(),
        ensures
            r@.len() == self.nodes@.len(),
            forall|i: int| 0 <= i < r@.len() ==> r@[i] == self.nodes@[i].0,
            r@.no_duplicates(),
    {
        let mut r: Vec<NodeID> = Vec::new();
        let mut i: usize = 0;
        while i < self.nodes.len()
            invariant
                self.wf(),
                i <= self.nodes@.len(),
                r@.len() == i,
                forall|j: int| 0 <= j < i ==> r@[j] == self.nodes@[j].0,
            decreases self.nodes@.len() - i,
        {
            r.push(self.nodes[i].0);
            i = i + 1;
        }
        r
    }

    /// Sweeps the arena: keeps exactly the nodes reachable from `root`
    /// through recorded child links, evicting every other node. Called
    /// after every root change, since subtrees of the old root that the
    /// new root cannot reach would otherwise leak forever.
    pub fn collect_garbage(&mut self, root: NodeID)
        requires
            old(self).wf(),
            old(self)@.contains_key(root),
            closed(old(self)@),
        ensures
            final(self).wf(),
            forall|id: NodeID|
                final(self)@.contains_key(id) <==> (old(self)@.contains_key(id) && reachable(
                    old(self)@,
                    root,
                    id,
                )),
            forall|id: NodeID|
                final(self)@.contains_key(id) ==> final(self)@[id] == old(self)@[id],
    {
        let ghost m0 = self@;
        let ghost total = m0.dom().len();
        proof {
            lemma_dom_finite(self.nodes@);
            lemma_reach_self(m0, root);
        }
        let mut open_set: Vec<NodeID> = Vec::new();
        open_set.push(root);
        proof {
            assert(open_set@[0] == root);
            assert(open_set@.contains(root));
        }
        let mut referenced: Vec<NodeID> = Vec::new();
        while open_set.len() > 0
            invariant
                self.wf(),
                self@ == m0,
                m0.contains_key(root),
                m0.dom().finite(),
                total == m0.dom().len(),
                forall|i: int|
                    0 <= i < referenced@.len() ==> m0.contains_key(#[trigger] referenced@[i])
                        && reachable(m0, root, referenced@[i]),
                forall|i: int|
                    0 <= i < open_set@.len() ==> m0.contains_key(#[trigger] open_set@[i])
                        && reachable(m0, root, open_set@[i]),
                referenced@.no_duplicates(),
                referenced@.len() <= total,
                forall|x: NodeID, c: NodeID|
                    referenced@.contains(x) && #[trigger] is_child_of(m0[x], c) && m0.contains_key(
                        c,
                    ) ==> referenced@.contains(c) || open_set@.contains(c),
                referenced@.contains(root) || open_set@.contains(root),
            decreases total - referenced@.len(), open_set@.len(),
        {
            let ghost open_before = open_set@;
            let id = open_set.pop().unwrap();
            proof {
                assert forall|c: NodeID| open_before.contains(c) implies open_set@.contains(c) || c
                    == id by {
                    let i = choose|i: int| 0 <= i < open_before.len() && open_before[i] == c;
                    if i < open_before.len() - 1 {
                        assert(open_set@[i] == c);
                    }
                }
            }
            if !vec_contains(&referenced, id) {
                let kids = self.child_ids(id);
                let mut j: usize = 0;
                while j < kids.len()
                    invariant
                        self.wf(),
                        self@ == m0,
                        m0.contains_key(root),
                        m0.dom().finite(),
                        total == m0.dom().len(),
                        m0.contains_key(id),
                        reachable(m0, root, id),
                        !referenced@.contains(id),
                        kids@.len() == m0[id].children@.len(),
                        forall|i: int| 0 <= i < kids@.len() ==> kids@[i] == m0[id].children@[i].1,
                        j <= kids@.len(),
                        forall|i: int|
                            0 <= i < referenced@.len() ==> m0.contains_key(
                                #[trigger] referenced@[i],
                            ) && reachable(m0, root, referenced@[i]),
                        forall|i: int|
                            0 <= i < open_set@.len() ==> m0.contains_key(#[trigger] open_set@[i])
                                && reachable(m0, root, open_set@[i]),
                        referenced@.no_duplicates(),
                        referenced@.len() <= total,
                        forall|x: NodeID, c: NodeID|
                            referenced@.contains(x) && #[trigger] is_child_of(m0[x], c)
                                && m0.contains_key(c) ==> referenced@.contains(c)
                                || open_set@.contains(c) || c == id,
                        referenced@.contains(root) || open_set@.contains(root) || root == id,
                        forall|i: int|
                            0 <= i < j && m0.contains_key(#[trigger] kids@[i])
                                ==> open_set@.contains(kids@[i]),
                    decreases kids@.len() - j,
                {
                    let ghost open_snap = open_set@;
                    let c = kids[j];
                    if self.contains(c) {
                        proof {
                            assert(is_child_of(m0[id], c));
                            lemma_reach_child(m0, root, id, c);
                        }
                        open_set.push(c);
                        proof {
                            assert forall|x: NodeID| open_snap.contains(x) implies open_set@.contains(
                                x,
                            ) by {
                                let i = choose|i: int|
                                    0 <= i < open_snap.len() && open_snap[i] == x;
                                assert(open_set@[i] == x);
                            }
                            assert(open_set@[open_set@.len() - 1] == c);
                        }
                    }
                    j = j + 1;
                }
                let ghost refd_before = referenced@;
                referenced.push(id);
                proof {
                    assert forall|x: NodeID| refd_before.contains(x) implies referenced@.contains(
                        x,
                    ) by {
                        let i = choose|i: int| 0 <= i < refd_before.len() && refd_before[i] == x;
                        assert(referenced@[i] == x);
                    }
                    assert(referenced@[referenced@.len() - 1] == id);
                    assert forall|x: NodeID, c: NodeID|
                        referenced@.contains(x) && #[trigger] is_child_of(m0[x], c)
                            && m0.contains_key(c) implies referenced@.contains(c)
                        || open_set@.contains(c) by {
                        if x == id {
                            let i = choose|i: int|
                                0 <= i < m0[id].children@.len() && m0[id].children@[i].1 == c;
                            assert(kids@[i] == c);
                        } else {
                            assert(refd_before.contains(x));
                        }
                    }
                    referenced@.unique_seq_to_set();
                    assert(referenced@.to_set().subset_of(m0.dom()));
                    vstd::set_lib::lemma_len_subset(referenced@.to_set(), m0.dom());
                }
            }
        }
        proof {
            assert forall|id: NodeID| m0.contains_key(id) && reachable(m0, root, id) implies
                referenced@.contains(id) by {
                lemma_closed_list_complete(m0, root, referenced@, id);
            }
        }
        let keys = self.key_list();
        let ghost keyseq = keys@;
        proof {
            assert forall|k: NodeID| m0.contains_key(k) implies keyseq.contains(k) by {
                lemma_seq_to_map_contains(self.nodes@, k);
                let i = choose|i: int| 0 <= i < self.nodes@.len() && self.nodes@[i].0 == k;
                assert(keyseq[i] == k);
            }
            assert forall|k: NodeID| keyseq.contains(k) implies m0.contains_key(k) by {
                lemma_seq_to_map_contains(self.nodes@, k);
                let i = choose|i: int| 0 <= i < keyseq.len() && keyseq[i] == k;
                assert(self.nodes@[i].0 == k);
            }
        }
        let mut i: usize = 0;
        while i < keys.len()
            invariant
                self.wf(),
                i <= keyseq.len(),
                keys@ == keyseq,
                keyseq.no_duplicates(),
                forall|k: NodeID| #![trigger keyseq.contains(k)]
                    m0.contains_key(k) <==> keyseq.contains(k),
                forall|k: NodeID| #![trigger m0.contains_key(k)]
                    self@.contains_key(k) <==> (m0.contains_key(k) && (referenced@.contains(k)
                        || !keyseq.take(i as int).contains(k))),
                forall|k: NodeID| #![trigger self@.contains_key(k)]
                    self@.contains_key(k) ==> self@[k] == m0[k],
            decreases keyseq.len() - i,
        {
            let ghost prev = self@;
            let ghost i0 = i as int;
            let k = keys[i];
            proof {
                assert(keyseq[i0] == k);
                assert(keyseq.contains(k));
                if keyseq.take(i0).contains(k) {
                    let j = choose|j: int| 0 <= j < i0 && #[trigger] keyseq.take(i0)[j] == k;
                    assert(keyseq[j] == k);
                    assert(false);
                }
            }
            if !vec_contains(&referenced, k) {
                let _evicted = self.take(k);
            }
            i = i + 1;
            proof {
                assert(keyseq.take(i as int) =~= keyseq.take(i0).push(k));
                assert(keyseq.take(i as int)[i0] == k);
                assert(keyseq.take(i as int).contains(k));
                assert forall|x: NodeID| #[trigger] keyseq.take(i as int).contains(x) implies
                    keyseq.take(i0).contains(x) || x == k by {
                    let j = choose|j: int|
                        0 <= j < keyseq.take(i as int).len() && #[trigger] keyseq.take(i as int)[j]
                            == x;
                    if j < i0 {
                        assert(keyseq.take(i0)[j] == x);
                    }
                }
                assert forall|x: NodeID| #[trigger] keyseq.take(i0).contains(x) implies keyseq.take(
                    i as int,
                ).contains(x) by {
                    let j = choose|j: int|
                        0 <= j < keyseq.take(i0).len() && #[trigger] keyseq.take(i0)[j] == x;
                    assert(keyseq.take(i as int)[j] == x);
                }
                assert forall|x: NodeID| true implies (self@.contains_key(x) <==> (
                m0.contains_key(x) && (referenced@.contains(x) || !keyseq.take(
                    i as int,
                ).contains(x)))) by {
                    assert(m0.contains_key(x) || !m0.contains_key(x));
                    assert(prev.contains_key(x) <==> (m0.contains_key(x) && (referenced@.contains(
                        x,
                    ) || !keyseq.take(i0).contains(x))));
                    if x == k {
                        if referenced@.contains(k) {
                            assert(self@ == prev);
                        } else {
                            assert(self@ == prev.remove(k));
                            assert(!self@.contains_key(k));
                        }
                    } else {
                        if referenced@.contains(k) {
                            assert(self@ == prev);
                        } else {
                            assert(self@ == prev.remove(k));
                            assert(self@.contains_key(x) == prev.contains_key(x));
                        }
                        assert(keyseq.take(i as int).contains(x) == keyseq.take(i0).contains(x));
                    }
                }
            }
        }
        proof {
            assert(keyseq.take(keyseq.len() as int) =~= keyseq);
            assert forall|id: NodeID| true implies (self@.contains_key(id) <==> (m0.contains_key(
                id,
            ) && reachable(m0, root, id))) by {
                assert(self@.contains_key(id) <==> (m0.contains_key(id) && (referenced@.contains(
                    id,
                ) || !keyseq.take(keyseq.len() as int).contains(id))));
                assert(m0.contains_key(id) <==> keyseq.contains(id));
                if referenced@.contains(id) {
                    let j = choose|j: int|
                        0 <= j < referenced@.len() && #[trigger] referenced@[j] == id;
                    assert(m0.contains_key(id) && reachable(m0, root, id));
                }
                if m0.contains_key(id) && reachable(m0, root, id) {
                    assert(referenced@.contains(id));
                }
            }
        }
    }
}

/// Removing the pair at an index of a unique-keyed sequence removes its
/// key from the denoted map.
pub proof fn lemma_remove_maps_to_remove<G: Game>(s: Seq<(NodeID, MoveTreeNode<G>)>, i: int)
    requires
        unique_keys(s),
        0 <= i < s.len(),
    ensures
        unique_keys(s.remove(i)),
        seq_to_map(s.remove(i)) == seq_to_map(s).remove(s[i].0),
    decreases s.len(),
{
    assert forall|a: int, b: int| 0 <= a < b < s.remove(i).len() implies s.remove(i)[a].0 != s.remove(
        i,
    )[b].0 by {
        let a0 = if a < i {
            a
        } else {
            a + 1
        };
        let b0 = if b < i {
            b
        } else {
            b + 1
        };
        assert(s.remove(i)[a] == s[a0] && s.remove(i)[b] == s[b0]);
    }
    if i == s.len() - 1 {
        assert(s.remove(i) =~= s.drop_last());
        lemma_seq_to_map_contains(s.drop_last(), s[i].0);
        assert forall|k: NodeID| true implies seq_to_map(s.remove(i)).contains_key(k)
            == seq_to_map(s).remove(s[i].0).contains_key(k) && (seq_to_map(
            s.remove(i),
        ).contains_key(k) ==> seq_to_map(s.remove(i))[k] == seq_to_map(s).remove(s[i].0)[k]) by {
            lemma_seq_to_map_contains(s, k);
            lemma_seq_to_map_contains(s.remove(i), k);
        }
        assert(seq_to_map(s.remove(i)) =~= seq_to_map(s).remove(s[i].0));
    } else {
        lemma_remove_maps_to_remove(s.drop_last(), i);
        assert(s.remove(i).drop_last() =~= s.drop_last().remove(i));
        assert(s.remove(i).last() == s.last());
        lemma_seq_to_map_contains(s.drop_last(), s[i].0);
        assert(seq_to_map(s.remove(i)) == seq_to_map(s.drop_last().remove(i)).insert(
            s.last().0,
            s.last().1,
        ));
        assert(seq_to_map(s.drop_last().remove(i)) == seq_to_map(s.drop_last()).remove(s[i].0));
        assert(s.drop_last()[i] == s[i]);
        assert(s[i].0 != s.last().0);
        assert(seq_to_map(s).remove(s[i].0) == seq_to_map(s.drop_last()).insert(
            s.last().0,
            s.last().1,
        ).remove(s[i].0));
        assert(seq_to_map(s.drop_last()).insert(s.last().0, s.last().1).remove(s[i].0)
            =~= seq_to_map(s.drop_last()).remove(s[i].0).insert(s.last().0, s.last().1));
    }
}

} // verus!
