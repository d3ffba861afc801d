use vstd::prelude::*;

use crate::game::{
    cell_of, lemma_cell_bound, lemma_move_facts, move_ends, move_outcome, replay, store_cell, sum, Game,
    GameState, PlayerSide, PocketIndex, STORE,
};

verus! {

/// Position of a node in a tree's node list.
pub type SequenceTreeIndex = usize;

/// One legal choice from a position, with what it leads to.
#[derive(Clone, Copy)]
pub struct Move {
    /// The pit the move is played from.
    pub pocket: PocketIndex,
    /// Stones in the mover's store after the move.
    pub score: i32,
    /// Whether the mover keeps the turn.
    pub free_turn: bool,
    /// The game after the move.
    pub game: Game,
}

/// A node that stands for a move, with the node it was played from.
#[derive(Clone, Copy)]
pub struct MoveNode {
    pub played: Move,
    pub parent: SequenceTreeIndex,
}

#[derive(Clone, Copy)]
pub enum SequenceNodeEnum {
    /// The position the tree starts from.
    Root(Game),
    /// A move played from another node.
    Move(MoveNode),
}

pub struct SequenceNode {
    pub node_enum: SequenceNodeEnum,
    /// Number of moves from the root.
    pub depth: usize,
    /// Indices of the node's ancestors, from the root down, itself excluded.
    pub path: Vec<SequenceTreeIndex>,
}

/// Every chain of moves that one side can make within one turn, as a list of
/// nodes that refer to each other by index.
pub struct SequenceTree {
    pub nodes: Vec<SequenceNode>,
    /// Nodes at which a chain ends: the turn passed or the game is over.
    pub leaf_nodes: Vec<SequenceTreeIndex>,
    /// Nodes at which the game is over.
    pub game_over_nodes: Vec<SequenceTreeIndex>,
}

pub enum EvalMethod {
    /// Player's store minus Opponent's store.
    ByDifference,
}

/// `m` is what playing `m.pocket` from `g` gives.
pub open spec fn valid_move(g: Game, m: Move) -> bool {
    let turn = g.board.player_turn;
    &&& m.pocket < STORE
    &&& move_ends(g.board@, (m.pocket, turn))
    &&& move_outcome(g@, (m.pocket, turn)) == Ok::<_, crate::game::InvalidPocketError>(m.game@)
    &&& m.score == m.game.board@.cells[store_cell(turn)]
    &&& m.free_turn == (m.game.board.player_turn == turn)
    &&& m.game.board@.wf()
}

/// A pit of the side to move that holds stones.
pub open spec fn legal_pit(g: Game, p: usize) -> bool {
    p < STORE && g.board@.cells[cell_of((p, g.board.player_turn))] > 0
}

pub open spec fn node_game(n: SequenceNode) -> Game {
    match n.node_enum {
        SequenceNodeEnum::Root(g) => g,
        SequenceNodeEnum::Move(m) => m.played.game,
    }
}

/// A chain ends at this node: the turn passed or the game is over.
pub open spec fn ends_chain(n: SequenceNode) -> bool {
    match n.node_enum {
        SequenceNodeEnum::Root(_) => false,
        SequenceNodeEnum::Move(m) => !m.played.free_turn || m.played.game.game_state != GameState::InProgress,
    }
}

/// The game is over at this node.
pub open spec fn ends_game(n: SequenceNode) -> bool {
    match n.node_enum {
        SequenceNodeEnum::Root(_) => false,
        SequenceNodeEnum::Move(m) => m.played.game.game_state != GameState::InProgress,
    }
}

/// Node `i` of `nodes` is a move from an earlier node, with the depth and path
/// that follow from its parent's.
pub open spec fn move_node_ok(nodes: Seq<SequenceNode>, i: int) -> bool {
    match nodes[i].node_enum {
        SequenceNodeEnum::Root(_) => false,
        SequenceNodeEnum::Move(m) => {
            let p = m.parent as int;
            &&& 0 <= p < i
            &&& nodes[i].path@ == nodes[p].path@.push(m.parent)
            &&& nodes[i].depth == nodes[p].depth + 1
            &&& node_game(nodes[p]).game_state == GameState::InProgress
            &&& valid_move(node_game(nodes[p]), m.played)
        },
    }
}

/// `s` lists, in increasing order, exactly the nodes at which a chain ends.
pub open spec fn lists_chain_ends(s: Seq<usize>, nodes: Seq<SequenceNode>) -> bool {
    &&& forall|k: int| 0 <= k < s.len() ==> 1 <= #[trigger] s[k] < nodes.len() && ends_chain(nodes[s[k] as int])
    &&& forall|k: int, l: int| 0 <= k < l < s.len() ==> s[k] < s[l]
    &&& forall|i: int| 1 <= i < nodes.len() && #[trigger] ends_chain(nodes[i]) ==> s.contains(i as usize)
}

/// `s` lists, in increasing order, exactly the nodes at which the game is over.
pub open spec fn lists_game_ends(s: Seq<usize>, nodes: Seq<SequenceNode>) -> bool {
    &&& forall|k: int| 0 <= k < s.len() ==> 1 <= #[trigger] s[k] < nodes.len() && ends_game(nodes[s[k] as int])
    &&& forall|k: int, l: int| 0 <= k < l < s.len() ==> s[k] < s[l]
    &&& forall|i: int| 1 <= i < nodes.len() && #[trigger] ends_game(nodes[i]) ==> s.contains(i as usize)
}

impl SequenceTree {
    pub open spec fn game_at(self, i: int) -> Game {
        node_game(self.nodes@[i])
    }

    pub open spec fn wf(self) -> bool {
        let nodes = self.nodes@;
        &&& nodes.len() >= 1
        &&& nodes[0].node_enum is Root
        &&& nodes[0].path@.len() == 0
        &&& nodes[0].depth == 0
        &&& self.game_at(0).board@.wf()
        &&& forall|i: int| 1 <= i < nodes.len() ==> #[trigger] move_node_ok(nodes, i)
        &&& forall|i: int| 0 <= i < nodes.len() ==> nodes[i].depth == #[trigger] nodes[i].path@.len()
        &&& forall|i: int| 0 <= i < nodes.len() ==> #[trigger] nodes[i].depth <= i
        &&& forall|i: int, k: int| 0 <= i < nodes.len() && 0 <= k < nodes[i].path@.len() ==> #[trigger] nodes[i].path@[k] < i
        &&& lists_chain_ends(self.leaf_nodes@, nodes)
        &&& lists_game_ends(self.game_over_nodes@, nodes)
    }
}

impl SequenceTree {
    /// Node `i` is to be expanded for `player_turn`: its game is in progress
    /// and `player_turn` is to move.
    pub open spec fn expandable(self, i: int, player_turn: PlayerSide) -> bool {
        &&& self.game_at(i).game_state == GameState::InProgress
        &&& self.game_at(i).board.player_turn == player_turn
    }

    /// Node `j` is a move from pit `p` played at node `i`.
    pub open spec fn is_child(self, j: int, i: int, p: usize) -> bool {
        match self.nodes@[j].node_enum {
            SequenceNodeEnum::Root(_) => false,
            SequenceNodeEnum::Move(m) => m.parent as int == i && m.played.pocket == p,
        }
    }

    /// If node `i` is to be expanded for `player_turn`, every legal move from
    /// it has a child node.
    pub open spec fn expanded(self, i: int, player_turn: PlayerSide) -> bool {
        self.expandable(i, player_turn) ==> forall|p: usize|
            #[trigger] legal_pit(self.game_at(i), p) ==> exists|j: int|
                1 <= j < self.nodes@.len() && #[trigger] self.is_child(j, i, p)
    }

    /// Node `j` is a move of `player_turn`.
    pub open spec fn played_by(self, j: int, player_turn: PlayerSide) -> bool {
        match self.nodes@[j].node_enum {
            SequenceNodeEnum::Root(_) => false,
            SequenceNodeEnum::Move(m) => self.game_at(m.parent as int).board.player_turn == player_turn,
        }
    }

    /// `self` holds the nodes of `earlier` first, unchanged.
    pub open spec fn extends(self, earlier: SequenceTree) -> bool {
        &&& earlier.nodes@.len() <= self.nodes@.len()
        &&& self.nodes@.subrange(0, earlier.nodes@.len() as int) == earlier.nodes@
    }
}

/// The pit a move node was played from.
pub open spec fn pocket_of(n: SequenceNode) -> usize {
    match n.node_enum {
        SequenceNodeEnum::Root(_) => 0,
        SequenceNodeEnum::Move(m) => m.played.pocket,
    }
}

/// The pits of the move nodes along `path`, in order.
pub open spec fn path_pockets(nodes: Seq<SequenceNode>, path: Seq<usize>) -> Seq<usize>
    decreases path.len(),
{
    if path.len() == 0 {
        seq![]
    } else {
        let rest = path_pockets(nodes, path.drop_last());
        if nodes[path.last() as int].node_enum is Move {
            rest.push(pocket_of(nodes[path.last() as int]))
        } else {
            rest
        }
    }
}

/// Score of a game under an evaluation method.
pub open spec fn evaluation(g: Game, method: EvalMethod) -> int {
    match method {
        EvalMethod::ByDifference => g.board@.cells[store_cell(PlayerSide::Player)] - g.board@.cells[store_cell(
            PlayerSide::Opponent,
        )],
    }
}

/// Whether score `e` strictly beats `best`.
pub open spec fn improves(e: int, best: int, maximize: bool) -> bool {
    if maximize {
        e > best
    } else {
        e < best
    }
}

impl SequenceTree {
    /// The pits to play, from the root, to reach node `i`.
    pub open spec fn move_sequence(self, i: int) -> Seq<usize> {
        path_pockets(self.nodes@, self.nodes@[i].path@).push(pocket_of(self.nodes@[i]))
    }

    /// The first of `cands` whose game scores best, scanning in order and
    /// replacing the choice only on a strictly better score.
    pub open spec fn best_of(self, cands: Seq<usize>, method: EvalMethod, maximize: bool) -> Option<usize>
        decreases cands.len(),
    {
        if cands.len() == 0 {
            None
        } else {
            let x = cands.last();
            match self.best_of(cands.drop_last(), method, maximize) {
                None => Some(x),
                Some(b) => if improves(
                    evaluation(self.game_at(x as int), method),
                    evaluation(self.game_at(b as int), method),
                    maximize,
                ) {
                    Some(x)
                } else {
                    Some(b)
                },
            }
        }
    }

    /// The nodes a best chain is chosen among: those where the game is over
    /// when `prefer_win` is set and there are any, else every chain end.
    pub open spec fn candidates(self, prefer_win: bool) -> Seq<usize> {
        if prefer_win && self.game_over_nodes@.len() > 0 {
            self.game_over_nodes@
        } else {
            self.leaf_nodes@
        }
    }

    /// The pits of the best chain, or nothing when there is no candidate.
    pub open spec fn best_sequence(self, method: EvalMethod, prefer_win: bool, maximize: bool) -> Seq<usize> {
        match self.best_of(self.candidates(prefer_win), method, maximize) {
            None => seq![],
            Some(i) => self.move_sequence(i as int),
        }
    }
}

proof fn lemma_played_by_kept(a: SequenceTree, b: SequenceTree, j: int, player_turn: PlayerSide)
    requires
        1 <= j < a.nodes@.len(),
        a.wf(),
        b.extends(a),
        a.played_by(j, player_turn),
    ensures
        b.played_by(j, player_turn),
{
    assert(move_node_ok(a.nodes@, j));
    assert(b.nodes@[j] == a.nodes@[j]);
    let p = a.nodes@[j].node_enum->Move_0.parent as int;
    assert(b.nodes@[p] == a.nodes@[p]);
}

proof fn lemma_expanded_kept(a: SequenceTree, b: SequenceTree, i: int, player_turn: PlayerSide)
    requires
        0 <= i < a.nodes@.len(),
        b.extends(a),
        a.expanded(i, player_turn),
    ensures
        b.expanded(i, player_turn),
{
    assert(b.nodes@[i] == a.nodes@[i]);
    if b.expandable(i, player_turn) {
        assert forall|p: usize| #[trigger] legal_pit(b.game_at(i), p) implies exists|j: int|
            1 <= j < b.nodes@.len() && #[trigger] b.is_child(j, i, p) by {
            let j = choose|j: int| 1 <= j < a.nodes@.len() && #[trigger] a.is_child(j, i, p);
            assert(b.nodes@[j] == a.nodes@[j]);
            assert(b.is_child(j, i, p));
        }
    }
}

impl Game {
    /// Every legal move of the side to move, by increasing pit.
    fn possible_moves(&self) -> (moves: Vec<Move>)
        requires
            self.board@.wf(),
        ensures
            forall|k: int| 0 <= k < moves.len() ==> valid_move(*self, #[trigger] moves@[k]),
            forall|k: int, l: int| 0 <= k < l < moves.len() ==> moves@[k].pocket < moves@[l].pocket,
            forall|p: usize| #[trigger] legal_pit(*self, p) ==> exists|k: int| 0 <= k < moves.len() && moves@[k].pocket == p,
    {
        let turn = self.board.player_turn;
        let mut moves: Vec<Move> = Vec::new();
        let mut pocket: usize = 0;
        while pocket < STORE
            invariant
                pocket <= STORE,
                turn == self.board.player_turn,
                self.board@.wf(),
                forall|k: int| 0 <= k < moves.len() ==> valid_move(*self, #[trigger] moves@[k]),
                forall|k: int| 0 <= k < moves.len() ==> #[trigger] moves@[k].pocket < pocket,
                forall|k: int, l: int| 0 <= k < l < moves.len() ==> moves@[k].pocket < moves@[l].pocket,
                forall|p: usize| p < pocket && #[trigger] legal_pit(*self, p) ==> exists|k: int| 0 <= k < moves.len() && moves@[k].pocket == p,
            decreases STORE - pocket,
        {
            if self.board.get_stones((pocket, turn)) != 0 {
                let mut game = *self;
                let r = game.play_move((pocket, turn));
                proof {
                    assert(r is Ok);
                }
                let m = Move {
                    pocket,
                    score: game.board.get_stones((STORE, turn)),
                    free_turn: game.board.player_turn == turn,
                    game,
                };
                let ghost prev = moves@;
                moves.push(m);
                proof {
                    assert forall|p: usize| p < pocket + 1 && #[trigger] legal_pit(*self, p) implies exists|k: int| 0 <= k < moves.len() && moves@[k].pocket == p by {
                        if p < pocket {
                            let k = choose|k: int| 0 <= k < prev.len() && prev[k].pocket == p;
                            assert(moves@[k] == prev[k]);
                        } else {
                            assert(moves@[prev.len() as int].pocket == p);
                        }
                    }
                }
            }
            pocket += 1;
        }
        moves
    }
}


impl SequenceTree {
    /// A tree that holds only the root `game`.
    pub fn new(game: Game) -> (r: Self)
        requires
            game.board@.wf(),
        ensures
            r.wf(),
            r.nodes@.len() == 1,
            r.game_at(0) == game,
            r.leaf_nodes@.len() == 0,
            r.game_over_nodes@.len() == 0,
    {
        let root = SequenceNode { node_enum: SequenceNodeEnum::Root(game), depth: 0, path: Vec::new() };
        let mut nodes: Vec<SequenceNode> = Vec::new();
        nodes.push(root);
        SequenceTree { nodes, leaf_nodes: Vec::new(), game_over_nodes: Vec::new() }
    }

    /// The game at node `i`.
    fn game_of(&self, i: SequenceTreeIndex) -> (g: Game)
        requires
            i < self.nodes@.len(),
        ensures
            g == self.game_at(i as int),
    {
        match &self.nodes[i].node_enum {
            SequenceNodeEnum::Root(game) => *game,
            SequenceNodeEnum::Move(move_node) => move_node.played.game,
        }
    }

    /// Appends one child of `parent_index` for each of `moves`, in order, and
    /// records those that end a chain or the game.
    fn create_children(&mut self, moves: Vec<Move>, parent_index: SequenceTreeIndex)
        requires
            old(self).wf(),
            parent_index < old(self).nodes@.len(),
            old(self).game_at(parent_index as int).game_state == GameState::InProgress,
            forall|k: int| 0 <= k < moves.len() ==> valid_move(old(self).game_at(parent_index as int), #[trigger] moves@[k]),
        ensures
            final(self).wf(),
            final(self).nodes@.len() == old(self).nodes@.len() + moves.len(),
            final(self).nodes@.subrange(0, old(self).nodes@.len() as int) == old(self).nodes@,
            forall|k: int| 0 <= k < moves.len() ==> (#[trigger] final(self).nodes@[old(self).nodes@.len() + k]).node_enum
                == SequenceNodeEnum::Move(MoveNode { played: moves@[k], parent: parent_index }),
    {
        let ghost start = self.nodes@;
        let mut i: usize = 0;
        while i < moves.len()
            invariant
                self.wf(),
                i <= moves.len(),
                parent_index < start.len(),
                self.nodes@.len() == start.len() + i,
                self.nodes@.subrange(0, start.len() as int) == start,
                self.game_at(parent_index as int) == node_game(start[parent_index as int]),
                node_game(start[parent_index as int]).game_state == GameState::InProgress,
                forall|k: int| 0 <= k < moves.len() ==> valid_move(node_game(start[parent_index as int]), #[trigger] moves@[k]),
                forall|k: int| 0 <= k < i ==> (#[trigger] self.nodes@[start.len() + k]).node_enum
                    == SequenceNodeEnum::Move(MoveNode { played: moves@[k], parent: parent_index }),
            decreases moves.len() - i,
        {
            let played = moves[i];
            let len = self.nodes.len();
            let mut path = self.nodes[parent_index].path.clone();
            proof {
                assert(path@ =~= self.nodes@[parent_index as int].path@);
                assert(self.nodes@[parent_index as int].depth <= parent_index as int);
            }
            path.push(parent_index);
            let node = SequenceNode {
                node_enum: SequenceNodeEnum::Move(MoveNode { played, parent: parent_index }),
                depth: self.nodes[parent_index].depth + 1,
                path,
            };
            let ghost prev = *self;
            let child_index = self.nodes.len();
            self.nodes.push(node);
            if !played.free_turn || played.game.game_state != GameState::InProgress {
                self.leaf_nodes.push(child_index);
            }
            if played.game.game_state != GameState::InProgress {
                self.game_over_nodes.push(child_index);
            }
            proof {
                let nodes = self.nodes@;
                assert(nodes.subrange(0, start.len() as int) =~= start);
                assert forall|j: int| 0 <= j < nodes.len() - 1 implies nodes[j] == prev.nodes@[j] by {}
                assert forall|j: int| 1 <= j < nodes.len() implies #[trigger] move_node_ok(nodes, j) by {
                    if j < nodes.len() - 1 {
                        assert(move_node_ok(prev.nodes@, j));
                    }
                }
                assert forall|k: int| 0 <= k < i + 1 implies (#[trigger] self.nodes@[start.len() + k]).node_enum
                    == SequenceNodeEnum::Move(MoveNode { played: moves@[k], parent: parent_index }) by {
                    if k < i {
                        assert(self.nodes@[start.len() + k] == prev.nodes@[start.len() + k]);
                    }
                }
                assert forall|j: int| 1 <= j < nodes.len() && #[trigger] ends_chain(nodes[j]) implies self.leaf_nodes@.contains(j as usize) by {
                    if j < nodes.len() - 1 {
                        assert(nodes[j] == prev.nodes@[j]);
                        assert(ends_chain(prev.nodes@[j]));
                        assert(prev.leaf_nodes@.contains(j as usize));
                        let k = choose|k: int| 0 <= k < prev.leaf_nodes@.len() && prev.leaf_nodes@[k] == j as usize;
                        assert(self.leaf_nodes@[k] == j as usize);
                    } else {
                        assert(self.leaf_nodes@.last() == j as usize);
                    }
                }
                assert forall|j: int| 1 <= j < nodes.len() && #[trigger] ends_game(nodes[j]) implies self.game_over_nodes@.contains(j as usize) by {
                    if j < nodes.len() - 1 {
                        assert(nodes[j] == prev.nodes@[j]);
                        assert(ends_game(prev.nodes@[j]));
                        assert(prev.game_over_nodes@.contains(j as usize));
                        let k = choose|k: int| 0 <= k < prev.game_over_nodes@.len() && prev.game_over_nodes@[k] == j as usize;
                        assert(self.game_over_nodes@[k] == j as usize);
                    } else {
                        assert(self.game_over_nodes@.last() == j as usize);
                    }
                }
            }
            i += 1;
        }
    }
}


impl SequenceTree {
    /// Adds below node `index` every chain of moves that `player_turn` can
    /// still make within its turn, depth first.
    fn expand(&mut self, player_turn: PlayerSide, index: SequenceTreeIndex, Ghost(room): Ghost<int>)
        requires
            old(self).wf(),
            index < old(self).nodes@.len(),
            room == sum(old(self).game_at(index as int).board@.cells) - old(self).game_at(
                index as int,
            ).board@.cells[store_cell(player_turn)],
        ensures
            final(self).wf(),
            final(self).extends(*old(self)),
            final(self).expanded(index as int, player_turn),
            forall|j: int|
                old(self).nodes@.len() <= j < final(self).nodes@.len() ==> #[trigger] final(self).expanded(
                    j,
                    player_turn,
                ),
            forall|j: int|
                old(self).nodes@.len() <= j < final(self).nodes@.len() ==> #[trigger] final(self).played_by(
                    j,
                    player_turn,
                ),
            !old(self).expandable(index as int, player_turn) ==> *final(self) == *old(self),
        decreases room,
    {
        let ghost before = *self;
        let game = self.game_of(index);
        proof {
            assert(self.nodes@.subrange(0, self.nodes@.len() as int) =~= self.nodes@);
            if index > 0 {
                assert(move_node_ok(self.nodes@, index as int));
            }
        }
        if game.game_state != GameState::InProgress || game.board.player_turn != player_turn {
            return;
        }
        let moves = game.possible_moves();
        let start = self.nodes.len();
        self.create_children(moves, index);
        let end = self.nodes.len();
        let ghost mid = *self;
        proof {
            assert forall|p: usize| #[trigger] legal_pit(game, p) implies exists|j: int|
                1 <= j < self.nodes@.len() && #[trigger] self.is_child(j, index as int, p) by {
                let k = choose|k: int| 0 <= k < moves.len() && moves@[k].pocket == p;
                assert(self.nodes@[start + k].node_enum == SequenceNodeEnum::Move(
                    MoveNode { played: moves@[k], parent: index },
                ));
                assert(self.is_child(start + k, index as int, p));
            }
            assert(self.nodes@[index as int] == before.nodes@[index as int]);
            assert(self.nodes@.subrange(0, end as int) =~= mid.nodes@);
            assert forall|j: int| start <= j < self.nodes@.len() implies #[trigger] self.played_by(j, player_turn) by {
                let k = j - start;
                assert(self.nodes@[start + k].node_enum == SequenceNodeEnum::Move(
                    MoveNode { played: moves@[k], parent: index },
                ));
            }
        }
        let mut c = start;
        while c < end
            invariant
                self.wf(),
                start <= c <= end,
                start == before.nodes@.len(),
                end == mid.nodes@.len(),
                index < start,
                mid.extends(before),
                self.extends(mid),
                self.game_at(index as int) == game,
                game.game_state == GameState::InProgress,
                game.board.player_turn == player_turn,
                game.board@.wf(),
                forall|k: int| 0 <= k < moves.len() ==> valid_move(game, #[trigger] moves@[k]),
                end == start + moves.len(),
                forall|k: int| 0 <= k < moves.len() ==> (#[trigger] mid.nodes@[start + k]).node_enum
                    == SequenceNodeEnum::Move(MoveNode { played: moves@[k], parent: index }),
                self.expanded(index as int, player_turn),
                forall|j: int| start <= j < c ==> #[trigger] self.expanded(j, player_turn),
                forall|j: int| end <= j < self.nodes@.len() ==> #[trigger] self.expanded(j, player_turn),
                forall|j: int| start <= j < self.nodes@.len() ==> #[trigger] self.played_by(j, player_turn),
                sum(before.game_at(index as int).board@.cells) == sum(game.board@.cells),
                before.game_at(index as int) == game,
                room == sum(game.board@.cells) - game.board@.cells[store_cell(player_turn)],
            decreases end - c,
        {
            let child = self.game_of(c);
            let ghost k = c - start;
            proof {
                assert(self.nodes@[c as int] == mid.nodes@[c as int]);
                assert(mid.nodes@[start + k].node_enum == SequenceNodeEnum::Move(
                    MoveNode { played: moves@[k], parent: index },
                ));
            }
            if child.game_state == GameState::InProgress && child.board.player_turn == player_turn {
                proof {
                    let m = moves@[k];
                    let loc = (m.pocket, player_turn);
                    assert(valid_move(game, m));
                    assert(child == m.game);
                    assert(game.board@.cells[cell_of(loc)] > 0);
                    assert(m.game.board@ == crate::game::after_move(game.board@, loc));
                    lemma_move_facts(game.board@, loc);
                    lemma_cell_bound(child.board@, store_cell(player_turn));
                    assert(child.board@.cells[store_cell(player_turn)] > game.board@.cells[store_cell(player_turn)]);
                }
                let ghost prev = *self;
                self.expand(
                    player_turn,
                    c,
                    Ghost(
                        sum(child.board@.cells) - child.board@.cells[store_cell(player_turn)],
                    ),
                );
                proof {
                    assert(self.nodes@.subrange(0, end as int) =~= prev.nodes@.subrange(0, end as int));
                    assert(self.extends(mid));
                    lemma_expanded_kept(prev, *self, index as int, player_turn);
                    assert forall|j: int| start <= j < c + 1 implies #[trigger] self.expanded(j, player_turn) by {
                        if j < c {
                            lemma_expanded_kept(prev, *self, j, player_turn);
                        }
                    }
                    assert forall|j: int| start <= j < self.nodes@.len() implies #[trigger] self.played_by(j, player_turn) by {
                        if j < prev.nodes@.len() {
                            lemma_played_by_kept(prev, *self, j, player_turn);
                        }
                    }
                    assert forall|j: int| end <= j < self.nodes@.len() implies #[trigger] self.expanded(j, player_turn) by {
                        if j < prev.nodes@.len() {
                            lemma_expanded_kept(prev, *self, j, player_turn);
                        }
                    }
                    assert(self.nodes@[index as int] == prev.nodes@[index as int]);
                }
            }
            c += 1;
        }
        proof {
            assert(self.nodes@.subrange(0, start as int) =~= mid.nodes@.subrange(0, start as int));
        }
    }

    /// Expands the tree below `parent_index` (the root when `None`) with every
    /// chain of moves that `player_turn` can make within its turn.
    pub fn generate_tree(&mut self, player_turn: PlayerSide, parent_index: Option<SequenceTreeIndex>)
        requires
            old(self).wf(),
            parent_index matches Some(i) ==> i < old(self).nodes@.len(),
        ensures
            final(self).wf(),
            final(self).extends(*old(self)),
            final(self).expanded(
                match parent_index {
                    Some(i) => i as int,
                    None => 0,
                },
                player_turn,
            ),
            forall|j: int|
                old(self).nodes@.len() <= j < final(self).nodes@.len() ==> #[trigger] final(self).expanded(
                    j,
                    player_turn,
                ),
            !old(self).expandable(
                match parent_index {
                    Some(i) => i as int,
                    None => 0,
                },
                player_turn,
            ) ==> *final(self) == *old(self),
            forall|j: int|
                old(self).nodes@.len() <= j < final(self).nodes@.len() ==> #[trigger] final(self).played_by(
                    j,
                    player_turn,
                ),
    {
        let index = match parent_index {
            Some(i) => i,
            None => 0,
        };
        self.expand(
            player_turn,
            index,
            Ghost(
                sum(self.game_at(index as int).board@.cells) - self.game_at(
                    index as int,
                ).board@.cells[store_cell(player_turn)],
            ),
        );
    }
}


/// Player's store minus Opponent's store.
fn eval_by_difference(game: &Game) -> (r: i64)
    ensures
        r == evaluation(*game, EvalMethod::ByDifference),
{
    game.board.get_stones((STORE, PlayerSide::Player)) as i64 - game.board.get_stones(
        (STORE, PlayerSide::Opponent),
    ) as i64
}

/// Scores a game under an evaluation method; positive favours Player.
pub fn evaluate(game: &Game, eval_method: &EvalMethod) -> (r: i64)
    ensures
        r == evaluation(*game, *eval_method),
{
    match eval_method {
        EvalMethod::ByDifference => eval_by_difference(game),
    }
}

impl SequenceTree {
    /// The pits to play, from the root game, to reach node `node_index`.
    pub fn get_move_sequence(&self, node_index: SequenceTreeIndex) -> (r: Vec<PocketIndex>)
        requires
            self.wf(),
            1 <= node_index < self.nodes@.len(),
        ensures
            r@ == self.move_sequence(node_index as int),
    {
        let path = &self.nodes[node_index].path;
        let mut sequence: Vec<PocketIndex> = Vec::new();
        let mut k: usize = 0;
        while k < path.len()
            invariant
                self.wf(),
                1 <= node_index < self.nodes@.len(),
                path@ == self.nodes@[node_index as int].path@,
                k <= path@.len(),
                sequence@ == path_pockets(self.nodes@, path@.subrange(0, k as int)),
            decreases path@.len() - k,
        {
            let a = path[k];
            proof {
                assert(path@.subrange(0, k + 1).drop_last() =~= path@.subrange(0, k as int));
                assert(self.nodes@[node_index as int].path@[k as int] < node_index);
            }
            match &self.nodes[a].node_enum {
                SequenceNodeEnum::Move(move_node) => sequence.push(move_node.played.pocket),
                SequenceNodeEnum::Root(_) => {},
            }
            k += 1;
        }
        proof {
            assert(path@.subrange(0, path@.len() as int) =~= path@);
            assert(move_node_ok(self.nodes@, node_index as int));
        }
        match &self.nodes[node_index].node_enum {
            SequenceNodeEnum::Move(move_node) => sequence.push(move_node.played.pocket),
            SequenceNodeEnum::Root(_) => {},
        }
        sequence
    }

    /// The pits of the chain whose end scores best under `eval_method`
    /// (highest when `maximize`, else lowest), the earliest on equal scores;
    /// among the game-over nodes when `prefer_win` is set and there are any.
    /// Empty when there is no candidate.
    pub fn get_best_sequence(&self, eval_method: &EvalMethod, prefer_win: bool, maximize: bool) -> (r: Vec<
        PocketIndex,
    >)
        requires
            self.wf(),
        ensures
            r@ == self.best_sequence(*eval_method, prefer_win, maximize),
    {
        let candidates = if prefer_win && self.game_over_nodes.len() > 0 {
            &self.game_over_nodes
        } else {
            &self.leaf_nodes
        };
        let mut best: Option<SequenceTreeIndex> = None;
        let mut best_evaluation: i64 = 0;
        let mut k: usize = 0;
        while k < candidates.len()
            invariant
                self.wf(),
                candidates@ == self.candidates(prefer_win),
                k <= candidates@.len(),
                best == self.best_of(candidates@.subrange(0, k as int), *eval_method, maximize),
                best matches Some(b) ==> 1 <= b < self.nodes@.len() && best_evaluation == evaluation(
                    self.game_at(b as int),
                    *eval_method,
                ),
            decreases candidates@.len() - k,
        {
            let index = candidates[k];
            proof {
                assert(candidates@.subrange(0, k + 1).drop_last() =~= candidates@.subrange(0, k as int));
            }
            let game = self.game_of(index);
            let evaluation = evaluate(&game, eval_method);
            let better = match best {
                None => true,
                Some(_) => if maximize {
                    evaluation > best_evaluation
                } else {
                    evaluation < best_evaluation
                },
            };
            if better {
                best = Some(index);
                best_evaluation = evaluation;
            }
            k += 1;
        }
        proof {
            assert(candidates@.subrange(0, candidates@.len() as int) =~= candidates@);
        }
        match best {
            Some(index) => self.get_move_sequence(index),
            None => Vec::new(),
        }
    }
}


/// Every recorded chain end is a move after which the turn passed or the game
/// is over, and every recorded game-over node is a recorded chain end whose
/// game is over.
pub proof fn lemma_leaf_classification(tree: SequenceTree)
    requires
        tree.wf(),
    ensures
        forall|k: int|
            0 <= k < tree.leaf_nodes@.len() ==> match (#[trigger] tree.nodes@[tree.leaf_nodes@[k] as int]).node_enum {
                SequenceNodeEnum::Root(_) => false,
                SequenceNodeEnum::Move(m) => !m.played.free_turn || m.played.game.game_state
                    != GameState::InProgress,
            },
        forall|k: int|
            0 <= k < tree.game_over_nodes@.len() ==> tree.leaf_nodes@.contains(
                #[trigger] tree.game_over_nodes@[k],
            ) && tree.game_at(tree.game_over_nodes@[k] as int).game_state != GameState::InProgress,
{
    assert forall|k: int| 0 <= k < tree.game_over_nodes@.len() implies tree.leaf_nodes@.contains(
        #[trigger] tree.game_over_nodes@[k],
    ) && tree.game_at(tree.game_over_nodes@[k] as int).game_state != GameState::InProgress by {
        let i = tree.game_over_nodes@[k] as int;
        assert(ends_game(tree.nodes@[i]));
        assert(ends_chain(tree.nodes@[i]));
    }
}

/// Replaying, from the root game, the pits that `get_move_sequence` gives for
/// a node reproduces exactly that node's game.
pub proof fn lemma_path_replays(tree: SequenceTree, i: int)
    requires
        tree.wf(),
        1 <= i < tree.nodes@.len(),
    ensures
        replay(tree.game_at(0)@, tree.move_sequence(i)) == Some(tree.game_at(i)@),
    decreases i,
{
    let nodes = tree.nodes@;
    assert(move_node_ok(nodes, i));
    let m = nodes[i].node_enum->Move_0;
    let p = m.parent as int;
    let seq_i = tree.move_sequence(i);
    assert(nodes[i].path@ == nodes[p].path@.push(m.parent));
    assert(nodes[i].path@.drop_last() =~= nodes[p].path@);
    assert(seq_i.drop_last() =~= path_pockets(nodes, nodes[i].path@));
    if p == 0 {
        assert(path_pockets(nodes, nodes[0].path@) =~= seq![]);
        assert(seq_i.drop_last() =~= seq![]);
        assert(replay(tree.game_at(0)@, seq_i.drop_last()) == Some(tree.game_at(0)@));
    } else {
        assert(move_node_ok(nodes, p));
        lemma_path_replays(tree, p);
        assert(seq_i.drop_last() =~= tree.move_sequence(p));
    }
}

/// With no chain end in the tree, no sequence is recommended.
pub proof fn lemma_no_leaves_no_sequence(
    tree: SequenceTree,
    method: EvalMethod,
    prefer_win: bool,
    maximize: bool,
)
    requires
        tree.wf(),
        tree.leaf_nodes@.len() == 0,
    ensures
        tree.best_sequence(method, prefer_win, maximize).len() == 0,
{
    if tree.game_over_nodes@.len() > 0 {
        lemma_leaf_classification(tree);
        assert(tree.leaf_nodes@.contains(tree.game_over_nodes@[0]));
    }
}

/// A tree grown for the side that is not to move at its root stays a lone
/// root, so no sequence is recommended from it.
pub proof fn lemma_wrong_side_has_no_leaves(tree: SequenceTree, player_turn: PlayerSide)
    requires
        tree.wf(),
        tree.nodes@.len() == 1,
        tree.game_at(0).board.player_turn != player_turn,
    ensures
        !tree.expandable(0, player_turn),
        tree.leaf_nodes@.len() == 0,
{
    if tree.leaf_nodes@.len() > 0 {
        assert(lists_chain_ends(tree.leaf_nodes@, tree.nodes@));
        let x = tree.leaf_nodes@[0];
        assert(1 <= x < tree.nodes@.len());
    }
}

} // verus!
