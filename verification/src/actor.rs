//! The search actor: the single owner of the arena and the root pointer.
//!
//! A long-lived worker drives [`SearchActor`]: it drains pending commands,
//! answering each with exactly one response, then runs one search step,
//! indefinitely. The channel plumbing and the thread live outside the
//! library; everything the actor decides is here.

use vstd::prelude::*;

verus! {

use crate::game::Game;
use crate::montecarlo::{SearchConfig, all_wf, montecarlo, step_post};
use crate::node_list::{
    NodeList,
    closed,
    is_child_of,
    lemma_gc_result_reachable,
    lemma_reach_only_self,
    lemma_reach_self,
    reachable,
};
use crate::tree::{MoveTreeNode, NodeID};
use vstd::std_specs::cmp::PartialEqSpec;

/// A command from the controller: ask for statistics, or advance the
/// root along a committed move.
pub enum Request<G: Game> {
    Info,
    MakeMove(G::Move),
}

/// The actor's answer: statistics for an `Info` request, an
/// acknowledgement for a committed move. The confidence of the best
/// move is carried as a win/game counter pair; it is zero over zero
/// when the best move cannot be resolved.
pub enum Response<G: Game> {
    Info {
        best_move: Option<G::Move>,
        possible_moves: Vec<G::Move>,
        is_random: bool,
        confidence_wins: u32,
        confidence_games: u32,
        total_sims: u64,
    },
    Ack,
}

/// Addition on the cumulative playout counter that stops at the
/// counter's ceiling instead of wrapping.
pub open spec fn sat_add64(a: u64, b: u64) -> u64 {
    if a + b > 0xFFFF_FFFF_FFFF_FFFF {
        0xFFFF_FFFF_FFFF_FFFFu64
    } else {
        (a + b) as u64
    }
}

/// Computes [`sat_add64`].
pub fn saturating_add64(a: u64, b: u64) -> (r: u64)
    ensures
        r == sat_add64(a, b),
{
    if a > 0xFFFF_FFFF_FFFF_FFFFu64 - b {
        0xFFFF_FFFF_FFFF_FFFF
    } else {
        a + b
    }
}

/// The selection count a child holds in the arena.
pub open spec fn child_sims<G: Game>(
    m: Map<NodeID, MoveTreeNode<G>>,
    children: Seq<(G::Move, NodeID)>,
    i: int,
) -> u32 {
    m[children[i].1].simulations
}

/// The child a committed move resolves to: the first recorded child
/// whose move equals it.
pub open spec fn spec_find_child<M: PartialEq>(children: Seq<(M, NodeID)>, mv: M) -> Option<
    NodeID,
>
    decreases children.len(),
{
    if children.len() == 0 {
        None
    } else if children[0].0.eq_spec(&mv) {
        Some(children[0].1)
    } else {
        spec_find_child(children.drop_first(), mv)
    }
}

/// The index of a most-explored child of `root`, or nothing when the
/// root has no children. Explored means selected for backpropagation the
/// most times; among ties, the last in child order wins.
fn best_child_index<G: Game>(nodes: &NodeList<G>, root: NodeID) -> (r: Option<usize>)
    requires
        nodes.wf(),
        closed(nodes@),
        nodes@.contains_key(root),
    ensures
        r is None <==> nodes@[root].children@.len() == 0,
        match r {
            Some(i) => i < nodes@[root].children@.len() && forall|j: int|
                0 <= j < nodes@[root].children@.len() ==> child_sims(
                    nodes@,
                    nodes@[root].children@,
                    j,
                ) <= child_sims(nodes@, nodes@[root].children@, i as int),
            None => true,
        },
{
    let node = nodes.get(root);
    if node.children.len() == 0 {
        return None;
    }
    proof {
        assert(is_child_of(nodes@[root], node.children@[0].1));
    }
    let mut bi: usize = 0;
    let mut bs: u32 = nodes.get(node.children[0].1).simulations;
    let mut i: usize = 1;
    while i < node.children.len()
        invariant
            nodes.wf(),
            closed(nodes@),
            nodes@.contains_key(root),
            *node == nodes@[root],
            1 <= i <= node.children@.len(),
            bi < i,
            bs == child_sims(nodes@, node.children@, bi as int),
            forall|j: int|
                0 <= j < i ==> child_sims(nodes@, node.children@, j) <= bs,
        decreases node.children@.len() - i,
    {
        proof {
            assert(is_child_of(nodes@[root], node.children@[i as int].1));
        }
        let s = nodes.get(node.children[i].1).simulations;
        if s >= bs {
            bi = i;
            bs = s;
        }
        i = i + 1;
    }
    Some(bi)
}

/// The most-explored move at the root, as [`best_child_index`] picks it.
pub fn best_move<G: Game>(nodes: &NodeList<G>, root: NodeID) -> (r: Option<G::Move>)
    requires
        nodes.wf(),
        closed(nodes@),
        nodes@.contains_key(root),
    ensures
        r is None <==> nodes@[root].children@.len() == 0,
        match r {
            Some(m) => exists|i: int|
                0 <= i < nodes@[root].children@.len() && cloned(
                    nodes@[root].children@[i].0,
                    m,
                ) && forall|j: int|
                    0 <= j < nodes@[root].children@.len() ==> child_sims(
                        nodes@,
                        nodes@[root].children@,
                        j,
                    ) <= child_sims(nodes@, nodes@[root].children@, i),
            None => true,
        },
{
    match best_child_index(nodes, root) {
        Some(i) => {
            let m = nodes.get(root).children[i].0.clone();
            Some(m)
        },
        None => None,
    }
}

/// The search actor's state: the arena, the current root, the playout
/// total since the actor started, and the step configuration.
pub struct SearchActor<G: Game> {
    pub nodes: NodeList<G>,
    pub root: NodeID,
    pub total_sims: u64,
    pub config: SearchConfig,
}

/// What an `Info` response promises about the actor it describes: the
/// chance flag mirrors the root, the move list mirrors the root's
/// children, the playout total is the actor's, the best move is absent
/// at a chance root and otherwise names a most-explored child, and the
/// confidence pair carries that child's counters.
pub open spec fn info_ok<G: Game>(a: SearchActor<G>, r: Response<G>) -> bool {
    match r {
        Response::Info {
            best_move: bm,
            possible_moves: pm,
            is_random: ir,
            confidence_wins: cw,
            confidence_games: cg,
            total_sims: ts,
        } => {
            let children = a.nodes@[a.root].children@;
            &&& ir == (a.nodes@[a.root].weights is Some)
            &&& ts == a.total_sims
            &&& pm@.len() == children.len()
            &&& forall|i: int| 0 <= i < children.len() ==> cloned(children[i].0, #[trigger] pm@[i])
            &&& (ir ==> bm is None && cw == 0 && cg == 0)
            &&& (!ir && children.len() == 0 ==> bm is None && cw == 0 && cg == 0)
            &&& (!ir && children.len() > 0 ==> exists|i: int|
                0 <= i < children.len() && (match bm {
                    Some(m) => cloned(children[i].0, m),
                    None => false,
                }) && cw == a.nodes@[children[i].1].wins && cg == a.nodes@[children[i].1].games
                    && forall|j: int|
                    0 <= j < children.len() ==> child_sims(a.nodes@, children, j) <= child_sims(
                        a.nodes@,
                        children,
                        i,
                    ))
        },
        Response::Ack => false,
    }
}

/// After a committed move, the new root is either a recorded child of
/// the old root or a fresh node with no children and no counted games.
pub open spec fn commit_root_ok<G: Game>(pre: SearchActor<G>, post: SearchActor<G>) -> bool {
    let children = pre.nodes@[pre.root].children@;
    (exists|i: int| 0 <= i < children.len() && (#[trigger] children[i]).1 == post.root) || (
    post.nodes@[post.root].children@.len() == 0 && post.nodes@[post.root].games == 0
        && post.nodes@[post.root].wins == 0 && post.nodes@[post.root].simulations == 0)
}

/// With well-behaved move equality, a committed move resolves to
/// exactly the first recorded child carrying it — that child becomes
/// the root with its contents untouched, and the arena keeps exactly
/// what it reaches — or, when no child carries the move, to a fresh
/// unexpanded node that is then the arena's only occupant.
pub open spec fn commit_resolution_ok<G: Game>(
    pre: SearchActor<G>,
    post: SearchActor<G>,
    mv: G::Move,
) -> bool {
    match spec_find_child(pre.nodes@[pre.root].children@, mv) {
        Some(cid) => {
            &&& post.root == cid
            &&& post.nodes@[cid] == pre.nodes@[cid]
            &&& forall|id: NodeID|
                #[trigger] post.nodes@.contains_key(id) <==> (pre.nodes@.contains_key(id)
                    && reachable(pre.nodes@, cid, id))
        },
        None => {
            &&& post.nodes@[post.root].children@.len() == 0
            &&& post.nodes@[post.root].games == 0
            &&& forall|id: NodeID| #[trigger] post.nodes@.contains_key(id) ==> id == post.root
        },
    }
}

/// Everything a committed move promises: the invariant holds on, the
/// statistics and configuration are untouched, the arena holds exactly
/// nodes the new root reaches, the new root is a recorded child of the
/// old root or a fresh zero-counter node, resolution is exact under
/// well-behaved move equality, every surviving node other than the new
/// root keeps its contents, and the only node a commit may ever alter
/// in place is a root replaced by a fresh, childless, uncounted node.
pub open spec fn commit_post<G: Game>(
    pre: SearchActor<G>,
    post: SearchActor<G>,
    mv: G::Move,
) -> bool {
    &&& post.wf()
    &&& post.total_sims == pre.total_sims
    &&& post.config == pre.config
    &&& forall|id: NodeID|
        #[trigger] post.nodes@.contains_key(id) ==> reachable(post.nodes@, post.root, id)
    &&& commit_root_ok(pre, post)
    &&& (G::Move::obeys_eq_spec() ==> commit_resolution_ok(pre, post, mv))
    &&& forall|id: NodeID|
        post.nodes@.contains_key(id) && id != post.root ==> pre.nodes@.contains_key(id)
            && #[trigger] post.nodes@[id] == pre.nodes@[id]
    &&& forall|id: NodeID|
        #[trigger] post.nodes@.contains_key(id) && pre.nodes@.contains_key(id)
            && post.nodes@[id] != pre.nodes@[id] ==> id == post.root
            && post.nodes@[id].children@.len() == 0 && post.nodes@[id].games == 0
}

impl<G: Game> SearchActor<G> {
    /// The actor's running invariant: a sound arena whose nodes all keep
    /// their accounting, closed child links, a stored root, and sane
    /// configuration.
    pub open spec fn wf(self) -> bool {
        &&& self.nodes.wf()
        &&& all_wf(self.nodes@)
        &&& closed(self.nodes@)
        &&& self.nodes@.contains_key(self.root)
        &&& self.config.wf()
    }

    /// A fresh actor over one starting position: an arena holding a
    /// single unexpanded root and a zeroed playout total.
    pub fn new(game: G, config: SearchConfig) -> (r: Self)
        requires
            config.wf(),
        ensures
            r.wf(),
            r.total_sims == 0,
            r.config == config,
            r.nodes@[r.root].children@.len() == 0,
            r.nodes@[r.root].games == 0,
    {
        let mut nodes = NodeList::<G>::new();
        let root = nodes.add(MoveTreeNode::new(game));
        SearchActor { nodes, root, total_sims: 0, config }
    }

    /// Answers an `Info` request from the current tree, touching
    /// nothing.
    pub fn info(&self) -> (r: Response<G>)
        requires
            self.wf(),
        ensures
            info_ok(*self, r),
    {
        let node = self.nodes.get(self.root);
        let is_random = match &node.weights {
            Some(_) => true,
            None => false,
        };
        let mut possible_moves: Vec<G::Move> = Vec::new();
        let mut i: usize = 0;
        while i < node.children.len()
            invariant
                *node == self.nodes@[self.root],
                i <= node.children@.len(),
                possible_moves@.len() == i,
                forall|j: int|
                    0 <= j < i ==> cloned(node.children@[j].0, #[trigger] possible_moves@[j]),
            decreases node.children@.len() - i,
        {
            possible_moves.push(node.children[i].0.clone());
            i = i + 1;
        }
        if is_random {
            Response::Info {
                best_move: None,
                possible_moves,
                is_random,
                confidence_wins: 0,
                confidence_games: 0,
                total_sims: self.total_sims,
            }
        } else {
            match best_child_index(&self.nodes, self.root) {
                Some(bi) => {
                    let cid = node.children[bi].1;
                    proof {
                        assert(is_child_of(self.nodes@[self.root], cid));
                    }
                    let child = self.nodes.get(cid);
                    Response::Info {
                        best_move: Some(node.children[bi].0.clone()),
                        possible_moves,
                        is_random,
                        confidence_wins: child.wins,
                        confidence_games: child.games,
                        total_sims: self.total_sims,
                    }
                },
                None => Response::Info {
                    best_move: None,
                    possible_moves,
                    is_random,
                    confidence_wins: 0,
                    confidence_games: 0,
                    total_sims: self.total_sims,
                },
            }
        }
    }

    /// Advances the root along a committed move: resolves the move to a
    /// recorded child of the root, or stores a fresh unexpanded node for
    /// the resulting state when the move was never expanded; then sweeps
    /// everything the new root cannot reach out of the arena.
    ///
    /// Afterwards every stored node is reachable from the new root — in
    /// particular the old root survives only as an ancestor's transposed
    /// descendant — and every surviving node keeps its contents.
    pub fn commit_move(&mut self, mv: &G::Move)
        requires
            old(self).wf(),
        ensures
            final(self).wf(),
            commit_post(*old(self), *final(self), *mv),
    {
        let ghost m0 = self.nodes@;
        let found = {
            let rt = self.nodes.get(self.root);
            proof {
                assert(rt.children@.skip(0) =~= rt.children@);
            }
            let mut found: Option<NodeID> = None;
            let mut i: usize = 0;
            while i < rt.children.len() && found.is_none()
                invariant
                    *rt == m0[old(self).root],
                    i <= rt.children@.len(),
                    match found {
                        None => G::Move::obeys_eq_spec() ==> spec_find_child(rt.children@, *mv)
                            == spec_find_child(rt.children@.skip(i as int), *mv),
                        Some(cid) => exists|j: int|
                            0 <= j < rt.children@.len() && (#[trigger] rt.children@[j]).1 == cid
                                && (G::Move::obeys_eq_spec() ==> spec_find_child(
                                rt.children@,
                                *mv,
                            ) == Some(cid)),
                    },
                decreases
                        rt.children@.len() - i,
                        (if found is None {
                            1int
                        } else {
                            0int
                        }),
            {
                proof {
                    assert(rt.children@.skip(i as int)[0] == rt.children@[i as int]);
                    assert(rt.children@.skip(i as int).drop_first() =~= rt.children@.skip(
                        i as int + 1,
                    ));
                }
                if rt.children[i].0 == *mv {
                    found = Some(rt.children[i].1);
                } else {
                    i = i + 1;
                }
            }
            proof {
                if found is None {
                    assert(i == rt.children@.len());
                    assert(rt.children@.skip(rt.children@.len() as int) =~= Seq::<
                        (G::Move, NodeID),
                    >::empty());
                }
            }
            found
        };
        let new_root = match found {
            Some(cid) => cid,
            None => {
                let mut g2 = {
                    let rt = self.nodes.get(self.root);
                    rt.game.clone()
                };
                g2.make_move(mv);
                let fresh = MoveTreeNode::new(g2);
                let ghost gfresh = fresh;
                let nid = self.nodes.add(fresh);
                proof {
                    assert(self.nodes@ == m0.insert(nid, gfresh));
                }
                nid
            },
        };
        let ghost pre = self.nodes@;
        proof {
            match found {
                Some(cid) => {
                    assert(pre == m0);
                    let j = choose|j: int|
                        0 <= j < m0[old(self).root].children@.len()
                            && #[trigger] m0[old(self).root].children@[j].1 == cid;
                    assert(is_child_of(m0[old(self).root], cid));
                    assert(pre.contains_key(new_root));
                },
                None => {
                    assert(pre.contains_key(new_root));
                },
            }
            assert forall|id: NodeID, c: NodeID|
                pre.contains_key(id) && #[trigger] is_child_of(pre[id], c) implies pre.contains_key(
                c,
            ) by {
                if found is Some {
                    assert(is_child_of(m0[id], c));
                } else {
                    if id == new_root {
                        assert(pre[id].children@.len() == 0);
                        assert(false);
                    } else {
                        assert(pre[id] == m0[id]);
                        assert(is_child_of(m0[id], c));
                        assert(m0.contains_key(c));
                    }
                }
            }
            assert forall|id: NodeID| pre.contains_key(id) implies pre[id].wf() by {
                if found is Some {
                    assert(m0[id].wf());
                } else {
                    if id != new_root {
                        assert(pre[id] == m0[id]);
                        assert(m0[id].wf());
                    }
                }
            }
            lemma_reach_self(pre, new_root);
        }
        self.nodes.collect_garbage(new_root);
        self.root = new_root;
        proof {
            lemma_gc_result_reachable(pre, self.nodes@, new_root);
            assert(self.nodes@.contains_key(new_root));
            assert forall|id: NodeID, c: NodeID|
                self.nodes@.contains_key(id) && #[trigger] is_child_of(self.nodes@[id], c) implies
                self.nodes@.contains_key(c) by {
                assert(self.nodes@[id] == pre[id]);
                assert(is_child_of(pre[id], c));
                assert(pre.contains_key(c));
                crate::node_list::lemma_reach_child(pre, new_root, id, c);
            }
            assert forall|id: NodeID| self.nodes@.contains_key(id) implies self.nodes@[id].wf() by {
                assert(self.nodes@[id] == pre[id]);
            }
            assert forall|id: NodeID|
                self.nodes@.contains_key(id) && id != new_root implies m0.contains_key(id)
                    && self.nodes@[id] == m0[id] by {
                assert(self.nodes@[id] == pre[id]);
            }
        }
    }

    /// Runs one search step against the current root and adds its
    /// playouts to the cumulative total; the total never decreases and
    /// the root never moves.
    pub fn search_tick(&mut self)
        requires
            old(self).wf(),
        ensures
            final(self).wf(),
            final(self).root == old(self).root,
            final(self).config == old(self).config,
            final(self).total_sims == sat_add64(
                old(self).total_sims,
                old(self).config.batch_size as u64,
            ),
            old(self).total_sims <= final(self).total_sims,
            step_post(
                old(self).nodes@,
                final(self).nodes@,
                old(self).root,
                old(self).config.batch_size,
                old(self).config.exploration_fp,
            ),
    {
        let n = montecarlo(&mut self.nodes, self.root, &self.config);
        self.total_sims = saturating_add64(self.total_sims, n as u64);
    }

    /// Processes one command and produces its one response: statistics
    /// for `Info`, an acknowledgement after the root is advanced for
    /// `MakeMove`.
    pub fn handle(&mut self, req: Request<G>) -> (r: Response<G>)
        requires
            old(self).wf(),
        ensures
            final(self).wf(),
            match req {
                Request::Info => *final(self) == *old(self) && info_ok(*old(self), r),
                Request::MakeMove(mv) => r is Ack && commit_post(*old(self), *final(self), mv),
            },
    {
        match req {
            Request::Info => self.info(),
            Request::MakeMove(mv) => {
                self.commit_move(&mv);
                Response::Ack
            },
        }
    }
}

} // verus!
