use mcts::actor::{best_move, Request, Response, SearchActor};
use mcts::game::{Game, MoveList};
use mcts::montecarlo::{all_max, backpropagate, montecarlo, tally_outcomes, SearchConfig};
use mcts::node_list::NodeList;
use mcts::score::Score;
use mcts::tree::MoveTreeNode;

/// A trivial two-move game: from the root, move 1 reaches a terminal
/// position won by player 1 and move 2 one won by player 2. Player 1 is
/// always to move.
#[derive(Clone)]
struct TwoMove {
    state: u8,
}

impl Game for TwoMove {
    type Move = u8;
    type Player = u8;

    fn get_hash(&self) -> u64 {
        self.state as u64
    }

    fn available_moves(&self) -> MoveList<u8> {
        if self.state == 0 {
            MoveList::Choice(vec![1, 2])
        } else {
            MoveList::Choice(Vec::new())
        }
    }

    fn make_move(&mut self, m: &u8) {
        self.state = *m;
    }

    fn get_cur_player(&self) -> u8 {
        1
    }

    fn get_winner(&self) -> Option<u8> {
        if self.state == 1 {
            Some(1)
        } else if self.state == 2 {
            Some(2)
        } else {
            None
        }
    }
}

/// A one-roll dice game: the root is a chance node with two outcomes,
/// weighted 7 against 3, each immediately terminal.
#[derive(Clone)]
struct OneRoll {
    state: u8,
}

impl Game for OneRoll {
    type Move = u8;
    type Player = u8;

    fn get_hash(&self) -> u64 {
        self.state as u64 + 100
    }

    fn available_moves(&self) -> MoveList<u8> {
        if self.state == 0 {
            MoveList::Random(vec![(1, 7), (2, 3)])
        } else {
            MoveList::Choice(Vec::new())
        }
    }

    fn make_move(&mut self, m: &u8) {
        self.state = *m;
    }

    fn get_cur_player(&self) -> u8 {
        1
    }

    fn get_winner(&self) -> Option<u8> {
        if self.state == 0 {
            None
        } else {
            Some(self.state)
        }
    }
}

#[test]
fn end_to_end_two_move_game() {
    let config = SearchConfig::standard();
    let batch = config.batch_size as u64;
    let mut actor = SearchActor::new(TwoMove { state: 0 }, config);
    for _ in 0..1000 {
        actor.search_tick();
    }
    match actor.handle(Request::Info) {
        Response::Info {
            best_move,
            possible_moves,
            is_random,
            confidence_wins,
            confidence_games,
            total_sims,
        } => {
            assert_eq!(best_move, Some(1));
            assert_eq!(total_sims, 1000 * batch);
            assert!(!is_random);
            let mut moves = possible_moves.clone();
            moves.sort();
            assert_eq!(moves, vec![1, 2]);
            assert!(confidence_games > 0);
            let confidence = confidence_wins as f64 / confidence_games as f64;
            assert!(confidence > 0.95, "confidence {} too low", confidence);
        }
        Response::Ack => panic!("expected an Info response"),
    }
}

#[test]
fn reachability_after_commit() {
    let config = SearchConfig::standard();
    let mut actor = SearchActor::new(TwoMove { state: 0 }, config);
    for _ in 0..50 {
        actor.search_tick();
    }
    // Three nodes: the root and its two terminal children.
    assert_eq!(actor.nodes.len(), 3);
    let old_root = actor.root;
    match actor.handle(Request::MakeMove(1)) {
        Response::Ack => {}
        _ => panic!("expected an acknowledgement"),
    }
    // The new root is the terminal child, which reaches nothing else:
    // the old root and the sibling are gone.
    assert_eq!(actor.nodes.len(), 1);
    assert!(actor.nodes.contains(actor.root));
    assert!(!actor.nodes.contains(old_root));
    assert_ne!(actor.root, old_root);
}

#[test]
fn commit_unexpanded_move_makes_fresh_root() {
    let config = SearchConfig::standard();
    let mut actor = SearchActor::new(TwoMove { state: 0 }, config);
    // The root was never expanded, so the move resolves to no child and
    // a fresh node is stored for the resulting state.
    actor.commit_move(&1);
    assert_eq!(actor.nodes.len(), 1);
    let root = actor.nodes.get(actor.root);
    assert_eq!(root.children.len(), 0);
    assert_eq!(root.games, 0);
    assert_eq!(root.wins, 0);
    assert_eq!(root.simulations, 0);
    // Ready for expansion: the next step runs against the new root.
    actor.search_tick();
    assert_eq!(actor.total_sims, config_batch() as u64);
}

fn config_batch() -> u32 {
    SearchConfig::standard().batch_size
}

#[test]
fn chance_root_reports_no_best_move() {
    let config = SearchConfig::standard();
    let mut actor = SearchActor::new(OneRoll { state: 0 }, config);
    for _ in 0..20 {
        actor.search_tick();
    }
    match actor.handle(Request::Info) {
        Response::Info { best_move, is_random, possible_moves, .. } => {
            assert!(is_random);
            assert_eq!(best_move, None);
            assert_eq!(possible_moves.len(), 2);
        }
        Response::Ack => panic!("expected an Info response"),
    }
}

#[test]
fn counter_conservation_over_two_passes() {
    let mut nodes: NodeList<TwoMove> = NodeList::new();
    let rid = nodes.add(MoveTreeNode::new(TwoMove { state: 0 }));
    let cid = nodes.add(MoveTreeNode::new(TwoMove { state: 1 }));
    let mut rt = nodes.take(rid);
    rt.children.push((1u8, cid));
    nodes.restore(rid, rt);
    let path = vec![(rid, cid)];

    let misses = backpropagate(&mut nodes, &path, 10, &vec![(1u8, 6u32)], 1_414_214);
    assert_eq!(misses, 0);
    backpropagate(&mut nodes, &path, 15, &vec![(1u8, 8u32)], 1_414_214);

    let child = nodes.get(cid);
    assert_eq!(child.games, 10 + 15);
    assert_eq!(child.simulations, 2);
    assert_eq!(child.wins, 6 + 8);
    assert!(child.wins <= child.games);
    assert!(matches!(child.score, Score::Finite(_)));
    let root = nodes.get(rid);
    assert_eq!(root.games, 10 + 15);
    assert_eq!(root.wins, 0);
}

#[test]
fn backpropagation_miss_is_benign() {
    let mut nodes: NodeList<TwoMove> = NodeList::new();
    let rid = nodes.add(MoveTreeNode::new(TwoMove { state: 0 }));
    // The recorded child was evicted before backpropagation arrives.
    let path = vec![(rid, 999u64)];
    let misses = backpropagate(&mut nodes, &path, 10, &vec![(1u8, 4u32)], 1_414_214);
    assert_eq!(misses, 1);
    // The parent is still credited.
    assert_eq!(nodes.get(rid).games, 10);
}

#[test]
fn untried_child_is_selected_first() {
    let mut nodes: NodeList<TwoMove> = NodeList::new();
    // One much-explored child with a finite score, one untried child.
    let mut tried = MoveTreeNode::new(TwoMove { state: 1 });
    tried.games = 100;
    tried.wins = 100;
    tried.simulations = 50;
    tried.score = Score::Finite(5_000_000);
    let tried_id = nodes.add(tried);
    let untried_id = nodes.add(MoveTreeNode::new(TwoMove { state: 2 }));

    let children = vec![(1u8, tried_id), (2u8, untried_id)];
    let (best, picks) = all_max(&nodes, &children);
    assert_eq!(best, Score::Unbounded);
    assert_eq!(picks, vec![1]);
}

#[test]
fn montecarlo_returns_the_batch() {
    let mut nodes: NodeList<TwoMove> = NodeList::new();
    let rid = nodes.add(MoveTreeNode::new(TwoMove { state: 0 }));
    let config = SearchConfig::standard();
    assert_eq!(montecarlo(&mut nodes, rid, &config), config.batch_size);
    // One step expanded the root and simulated one child.
    assert_eq!(nodes.len(), 3);
    assert_eq!(nodes.get(rid).games, config.batch_size);
}

#[test]
fn best_move_picks_most_simulated() {
    let mut nodes: NodeList<TwoMove> = NodeList::new();
    let rid = nodes.add(MoveTreeNode::new(TwoMove { state: 0 }));
    let mut a = MoveTreeNode::new(TwoMove { state: 1 });
    a.simulations = 3;
    let aid = nodes.add(a);
    let mut b = MoveTreeNode::new(TwoMove { state: 2 });
    b.simulations = 9;
    let bid = nodes.add(b);
    let mut rt = nodes.take(rid);
    rt.children.push((1u8, aid));
    rt.children.push((2u8, bid));
    nodes.restore(rid, rt);
    assert_eq!(best_move(&nodes, rid), Some(2));
}

#[test]
fn garbage_collection_keeps_exactly_the_reachable() {
    let mut nodes: NodeList<TwoMove> = NodeList::new();
    let rid = nodes.add(MoveTreeNode::new(TwoMove { state: 0 }));
    let aid = nodes.add(MoveTreeNode::new(TwoMove { state: 1 }));
    let bid = nodes.add(MoveTreeNode::new(TwoMove { state: 2 }));
    let orphan = nodes.add(MoveTreeNode::new(TwoMove { state: 3 }));
    let mut rt = nodes.take(rid);
    rt.children.push((1u8, aid));
    nodes.restore(rid, rt);
    let mut a = nodes.take(aid);
    a.children.push((2u8, bid));
    nodes.restore(aid, a);

    nodes.collect_garbage(rid);
    assert_eq!(nodes.len(), 3);
    assert!(nodes.contains(rid));
    assert!(nodes.contains(aid));
    assert!(nodes.contains(bid));
    assert!(!nodes.contains(orphan));

    // Collecting from the middle drops the old root too.
    nodes.collect_garbage(aid);
    assert_eq!(nodes.len(), 2);
    assert!(!nodes.contains(rid));
}

#[test]
fn chance_expansion_records_raw_weights() {
    let mut nodes: NodeList<OneRoll> = NodeList::new();
    let rid = nodes.add(MoveTreeNode::new(OneRoll { state: 0 }));
    let config = SearchConfig::standard();
    montecarlo(&mut nodes, rid, &config);
    let root = nodes.get(rid);
    assert_eq!(root.children.len(), 2);
    assert_eq!(root.children[0].0, 1);
    assert_eq!(root.children[1].0, 2);
    assert_eq!(root.weights, Some(vec![7, 3]));
}

/// A game whose root repeats a move and whose two distinct moves lead
/// to the same resulting state.
#[derive(Clone)]
struct Collapsing {
    state: u8,
}

impl Game for Collapsing {
    type Move = u8;
    type Player = u8;

    fn get_hash(&self) -> u64 {
        // Both moves lead to states that hash alike.
        if self.state == 0 {
            200
        } else {
            201
        }
    }

    fn available_moves(&self) -> MoveList<u8> {
        if self.state == 0 {
            MoveList::Choice(vec![1, 1, 2])
        } else {
            MoveList::Choice(Vec::new())
        }
    }

    fn make_move(&mut self, m: &u8) {
        self.state = *m;
    }

    fn get_cur_player(&self) -> u8 {
        1
    }

    fn get_winner(&self) -> Option<u8> {
        if self.state == 0 {
            None
        } else {
            Some(1)
        }
    }
}

#[test]
fn expansion_deduplicates_moves_and_shares_transpositions() {
    let mut nodes: NodeList<Collapsing> = NodeList::new();
    let rid = nodes.add(MoveTreeNode::new(Collapsing { state: 0 }));
    let config = SearchConfig::standard();
    montecarlo(&mut nodes, rid, &config);
    let root = nodes.get(rid);
    // The repeated move was dropped; the two distinct moves stay.
    assert_eq!(root.children.len(), 2);
    assert_eq!(root.children[0].0, 1);
    assert_eq!(root.children[1].0, 2);
    // Both moves reach the same state, so both link the same stored
    // node: the arena holds the root and one shared child.
    assert_eq!(root.children[0].1, root.children[1].1);
    assert_eq!(nodes.len(), 2);
}

#[test]
fn tally_counts_each_winner() {
    let outcomes: Vec<Option<u8>> = vec![Some(1), Some(2), Some(1), None, Some(1)];
    let mut tally = tally_outcomes(outcomes);
    tally.sort();
    assert_eq!(tally, vec![(1u8, 3u32), (2u8, 1u32)]);
}
