//! The bot facade: it owns the search graph, keeps the played game state and
//! the known piece queue in step with it, and turns external events into
//! graph operations. One `do_work` call performs a single select, move
//! generation, evaluation and expansion cycle.

use vstd::prelude::*;

use crate::board::popcount;
use crate::board::Board;
use crate::data::clear_mask;
use crate::dag::list_of;
use crate::dag::Dag;
use crate::dag::ChildData;
use crate::data::GameState;
use crate::data::Piece;
use crate::data::Placement;
use crate::data::PlacementInfo;
use crate::data::Spin;
use crate::eval::Evaluation;
use crate::eval::IntEval;
use crate::eval::IntReward;
use crate::movegen::find_moves;

verus! {

/// Counts of one or more search cycles: child nodes evaluated, selection
/// attempts, and expansions performed.
#[derive(Clone, Copy, Debug, PartialEq, Eq, Structural, Hash)]
pub struct Statistics {
    pub nodes: u64,
    pub selections: u64,
    pub expansions: u64,
}

impl Default for Statistics {
    /// All counts start at zero.
    fn default() -> (r: Statistics)
        ensures
            r.nodes == 0 && r.selections == 0 && r.expansions == 0,
    {
        Statistics { nodes: 0, selections: 0, expansions: 0 }
    }
}

impl Statistics {
    /// Fold another cycle's counts into this one.
    pub fn accumulate(&mut self, other: Statistics)
        requires
            old(self).nodes + other.nodes <= u64::MAX,
            old(self).selections + other.selections <= u64::MAX,
            old(self).expansions + other.expansions <= u64::MAX,
        ensures
            final(self).nodes == old(self).nodes + other.nodes,
            final(self).selections == old(self).selections + other.selections,
            final(self).expansions == old(self).expansions + other.expansions,
    {
        self.nodes = self.nodes + other.nodes;
        self.selections = self.selections + other.selections;
        self.expansions = self.expansions + other.expansions;
    }
}

/// Tuning of the search: whether unknown pieces are speculated from the bag,
/// and the exploration scale of the weighted-random child choice, in
/// thousandths.
#[derive(Clone, Copy, Debug, PartialEq, Eq, Structural, Hash)]
pub struct BotOptions {
    pub speculate: bool,
    pub exploration_permille: u32,
}

impl BotOptions {
    /// The exploration scale is positive.
    pub open spec fn wf(self) -> bool {
        self.exploration_permille >= 1
    }
}

/// The heuristic judge of a placement, supplied by the embedder: a pure
/// function from the state reached, the placement report and the soft-drop
/// distance to a projected evaluation and an immediate reward.
pub trait Evaluator<E: Evaluation> {
    /// Judge the state reached by a placement.
    fn evaluate(&self, state: &GameState, info: &PlacementInfo, soft_drops: u32) -> (r: (
        E,
        E::Reward,
    ));
}

/// Sum of the filled cells of the first `n` columns.
pub open spec fn filled_below(b: Board, n: int) -> int
    decreases n,
{
    if n <= 0 {
        0
    } else {
        filled_below(b, n - 1) + popcount(b.cols@[n - 1])
    }
}

/// Sum of the filled cells of a board.
pub open spec fn filled_cells(b: Board) -> int {
    filled_below(b, 10)
}

/// A small built-in evaluator: emptier boards score higher, and cleared
/// lines and perfect clears earn rewards. Values are in the evaluation
/// type's fixed-point thousandths.
#[derive(Clone, Copy, Debug, PartialEq, Eq, Structural, Hash)]
pub struct CellCountEvaluator;

impl Evaluator<IntEval> for CellCountEvaluator {
    /// The evaluation is minus a hundredth of a point per filled cell of the
    /// board reached; the reward is a tenth of a point per cleared line,
    /// plus a full point for a perfect clear.
    fn evaluate(&self, state: &GameState, info: &PlacementInfo, soft_drops: u32) -> (r: (
        IntEval,
        IntReward,
    ))
        ensures
            r.0.value == -10 * filled_cells(state.board),
            r.1.value == 100 * (info.lines_cleared as int) + (if info.perfect_clear {
                1000int
            } else {
                0int
            }),
    {
        let mut filled: i64 = 0;
        let mut x: usize = 0;
        while x < 10
            invariant
                x <= 10,
                filled == filled_below(state.board, x as int),
                0 <= filled <= x * 64,
            decreases 10 - x,
        {
            proof {
                lemma_popcount_bounds(state.board.cols@[x as int]);
            }
            filled = filled + Board::count_bits(state.board.cols[x]) as i64;
            x = x + 1;
        }
        let eval = IntEval { value: -10 * filled };
        let reward = IntReward {
            value: 100 * (info.lines_cleared as i64) + (if info.perfect_clear {
                1000
            } else {
                0
            }),
        };
        (eval, reward)
    }
}

/// A bit count lies between zero and sixty-four.
proof fn lemma_popcount_bounds(v: u64)
    ensures
        0 <= popcount(v) <= 64,
{
    lemma_ones_below_bounds(v, 64);
}

/// Helper induction for [`lemma_popcount_bounds`].
proof fn lemma_ones_below_bounds(v: u64, y: int)
    requires
        0 <= y,
    ensures
        0 <= crate::board::ones_below(v, y) <= y,
    decreases y,
{
    if y > 0 {
        lemma_ones_below_bounds(v, y - 1);
    }
}

/// The bot: the search graph, the game state it believes current, the known
/// piece queue, and the tuning options.
pub struct Bot<E: Evaluation> {
    pub options: BotOptions,
    pub current: GameState,
    pub queue: Vec<Piece>,
    pub dag: Dag<E>,
}

impl<E: Evaluation> Bot<E> {
    /// The graph is well formed and rooted at the current state; the first
    /// layers carry exactly the queued pieces, and every layer past the
    /// queue is still speculated.
    pub open spec fn wf(self) -> bool {
        &&& self.options.wf()
        &&& self.dag.wf()
        &&& self.dag.root == self.current
        &&& self.queue@.len() <= self.dag.layers@.len()
        &&& forall|i: int|
            0 <= i < self.queue@.len() ==> (#[trigger] self.dag.layers@[i]).piece == Some(
                self.queue@[i],
            )
        &&& forall|i: int|
            self.queue@.len() <= i < self.dag.layers@.len() ==> (#[trigger] self.dag.layers@[i]).piece
                is None
    }

    /// A bot over the given state and queue of known upcoming pieces.
    pub fn new(options: BotOptions, root: GameState, queue: Vec<Piece>) -> (b: Bot<E>)
        requires
            options.wf(),
            root.wf(),
        ensures
            b.wf(),
            b.current == root,
            b.queue == queue,
            b.options == options,
    {
        let dag = Dag::new(root, &queue);
        Bot { options, current: root, queue, dag }
    }

    /// The game played `mv`: apply it to the current state with the first
    /// queued piece, and move the graph's root forward.
    pub fn advance(&mut self, mv: Placement)
        requires
            old(self).wf(),
            old(self).queue@.len() > 0,
            mv.location.coords_in_range(),
            mv.location.cells_in_bounds(),
        ensures
            final(self).wf(),
            final(self).queue@ == old(self).queue@.skip(1),
            final(self).current.board.cols@ == crate::data::cols_after(
                old(self).current.board.cols@,
                mv.location,
            ),
            ({
                let next = old(self).queue@[0];
                &&& final(self).current.reserve == (if mv.location.piece != next {
                    next
                } else {
                    old(self).current.reserve
                })
                &&& (if (exists|q: Piece| q != next && old(self).current.bag.has(q)) {
                    forall|q: Piece|
                        #[trigger] final(self).current.bag.has(q) == (old(self).current.bag.has(q)
                            && q != next)
                } else {
                    forall|q: Piece| #[trigger] final(self).current.bag.has(q)
                })
            }),
            ({
                let mask = clear_mask(old(self).current.board.cols@, mv.location);
                &&& final(self).current.combo == (if mask != 0 {
                    old(self).current.combo.saturating_add(1)
                } else {
                    0u8
                })
                &&& final(self).current.back_to_back == (if mask != 0 {
                    popcount(mask) == 4 || mv.spin != Spin::NoSpin
                } else {
                    old(self).current.back_to_back
                })
            }),
    {
        let _ = self.queue.remove(0);
        self.dag.advance(mv);
        self.current = self.dag.root;
    }

    /// A further upcoming piece became known: append it to the queue and fix
    /// it in the first layer that was still speculated.
    pub fn new_piece(&mut self, piece: Piece)
        requires
            old(self).wf(),
        ensures
            final(self).wf(),
            final(self).queue@ == old(self).queue@.push(piece),
            ({
                let k = old(self).queue@.len() as int;
                k < old(self).dag.layers@.len() ==> {
                    &&& final(self).dag.layers@[k].piece == Some(piece)
                    &&& final(self).dag.layers@[k].index_of@ == old(self).dag.layers@[k].index_of@
                    &&& final(self).dag.layers@[k].nodes@.len() == old(
                        self,
                    ).dag.layers@[k].nodes@.len()
                    &&& forall|n: int|
                        0 <= n < old(self).dag.layers@[k].nodes@.len() ==> (match (
                            old(self).dag.layers@[k].nodes@[n].children,
                            (#[trigger] final(self).dag.layers@[k].nodes@[n]).children,
                        ) {
                            (Some(c0), Some(c)) => {
                                &&& list_of(c, piece) == list_of(c0, piece)
                                &&& forall|p: Piece|
                                    p != piece ==> (#[trigger] list_of(c, p)).len() == 0
                            },
                            (None, None) => true,
                            _ => false,
                        })
                }
            }),
    {
        proof {
            let layers = self.dag.layers@;
            let k = self.queue@.len() as int;
            if k < layers.len() {
                crate::dag::lemma_first_speculated_is::<E>(layers, k);
            } else {
                crate::dag::lemma_first_speculated_none::<E>(layers);
            }
        }
        self.queue.push(piece);
        self.dag.add_piece(piece);
    }

    /// The best immediate placements from the root, best first: each entry
    /// is the head placement of a non-empty child list of the root node for
    /// a piece the next draw may produce, and the list is non-empty whenever
    /// such a child list exists.
    pub fn suggest(&self) -> (r: Vec<Placement>)
        requires
            self.wf(),
        ensures
            r@.len() <= 7,
            crate::dag::suggestion_ok(self.dag, r@),
    {
        self.dag.suggest()
    }

    /// One search cycle: select a leaf, enumerate the placements of every
    /// piece the next draw may produce (and of the held piece), judge each
    /// resulting state with the evaluator, and expand the leaf with the
    /// children found.
    pub fn do_work<V: Evaluator<E>>(&mut self, evaluator: &V) -> (stats: Statistics)
        requires
            old(self).wf(),
        ensures
            final(self).wf(),
            final(self).current == old(self).current,
            final(self).queue == old(self).queue,
            stats.selections == 1,
            stats.expansions <= 1,
            (old(self).dag.node_at(0, crate::dag::state_hash_spec(old(self).current))
                matches Some(n) && n.children is None && !n.expanding) ==> stats.expansions == 1
                && (final(self).dag.node_at(0, crate::dag::state_hash_spec(old(self).current))
                matches Some(n2) && n2.children is Some),
            stats.expansions == 0 ==> stats.nodes == 0 && crate::dag::same_but_claims(
                old(self).dag,
                final(self).dag,
            ),
            stats.expansions == 1 ==> (exists|depth: int, gs: GameState|
                #[trigger] crate::dag::newly_expanded(old(self).dag, final(self).dag, depth, gs)),
    {
        let mut stats = Statistics { nodes: 0, selections: 1, expansions: 0 };
        let ghost orig = *self;
        let sel = match self.dag.select(
            self.options.speculate,
            self.options.exploration_permille,
        ) {
            None => {
                return stats;
            },
            Some(s) => s,
        };
        let ghost post_sel = *self;
        let (state, next) = sel.state();
        let possibilities: Vec<Piece> = match next {
            Some(p) => {
                let mut v: Vec<Piece> = Vec::new();
                v.push(p);
                v
            },
            None => state.bag.to_vec(),
        };
        let reserve_moves = find_moves(&state.board, state.reserve);
        let mut children: [Vec<ChildData<E>>; 7] = [
            Vec::new(),
            Vec::new(),
            Vec::new(),
            Vec::new(),
            Vec::new(),
            Vec::new(),
            Vec::new(),
        ];
        let mut pi: usize = 0;
        while pi < possibilities.len()
            invariant
                pi <= possibilities@.len(),
                stats.selections == 1,
                stats.expansions == 0,
                state.wf(),
                forall|i: int|
                    0 <= i < reserve_moves@.len() ==> crate::movegen::valid_move(
                        state.board,
                        state.reserve,
                        (#[trigger] reserve_moves@[i]).0,
                    ),
                forall|a: int, b: int|
                    0 <= a < b < possibilities@.len() ==> possibilities@[a].idx()
                        < possibilities@[b].idx(),
                forall|j: int|
                    0 <= j < pi as int ==> {
                        let p = #[trigger] possibilities@[j];
                        !(crate::movegen::spawn_loc(p, 19).obstructed_spec(state.board)
                            && crate::movegen::spawn_loc(p, 20).obstructed_spec(state.board))
                            ==> children@[p.idx()]@.len() > 0
                    },
            decreases possibilities@.len() - pi,
        {
            let np = possibilities[pi];
            let own_moves = find_moves(&state.board, np);
            let mut list: Vec<ChildData<E>> = Vec::new();
            let mut k: usize = 0;
            while k < own_moves.len()
                invariant
                    k <= own_moves@.len(),
                    list@.len() == k,
                    stats.selections == 1,
                    stats.expansions == 0,
                    state.wf(),
                    forall|i: int|
                        0 <= i < own_moves@.len() ==> crate::movegen::valid_move(
                            state.board,
                            np,
                            (#[trigger] own_moves@[i]).0,
                        ),
                decreases own_moves@.len() - k,
            {
                let (mv, sd) = own_moves[k];
                let mut s2 = state;
                let info = s2.advance(np, mv);
                let (ev, rw) = evaluator.evaluate(&s2, &info, sd);
                list.push(ChildData { resulting_state: s2, mv, eval: ev, reward: rw });
                stats.nodes = stats.nodes.saturating_add(1);
                k = k + 1;
            }
            if !(np == state.reserve) {
                let mut k2: usize = 0;
                while k2 < reserve_moves.len()
                    invariant
                        k2 <= reserve_moves@.len(),
                        list@.len() >= own_moves@.len(),
                        stats.selections == 1,
                        stats.expansions == 0,
                        state.wf(),
                        forall|i: int|
                            0 <= i < reserve_moves@.len() ==> crate::movegen::valid_move(
                                state.board,
                                state.reserve,
                                (#[trigger] reserve_moves@[i]).0,
                            ),
                    decreases reserve_moves@.len() - k2,
                {
                    let (mv, sd) = reserve_moves[k2];
                    let mut s2 = state;
                    let info = s2.advance(np, mv);
                    let (ev, rw) = evaluator.evaluate(&s2, &info, sd);
                    list.push(ChildData { resulting_state: s2, mv, eval: ev, reward: rw });
                    stats.nodes = stats.nodes.saturating_add(1);
                    k2 = k2 + 1;
                }
            }
            let ghost pre_children = children;
            children[np.index()] = list;
            proof {
                assert(children@ == pre_children@.update(np.idx(), list));
                assert forall|j: int| 0 <= j < pi as int + 1 implies {
                    let p = #[trigger] possibilities@[j];
                    !(crate::movegen::spawn_loc(p, 19).obstructed_spec(state.board)
                        && crate::movegen::spawn_loc(p, 20).obstructed_spec(state.board))
                        ==> children@[p.idx()]@.len() > 0
                } by {
                    let p = possibilities@[j];
                    assert(np == possibilities@[pi as int]);
                    if j < pi as int {
                        assert(p.idx() < np.idx());
                        assert(children@[p.idx()] == pre_children@[p.idx()]);
                    } else {
                        assert(p == np);
                    }
                }
            }
            pi = pi + 1;
        }
        stats.expansions = 1;
        let ghost pre_expand = *self;
        self.dag.expand(sel, &children);
        proof {
            let d = sel.depth as int;
            let gs = sel.game_state;
            let h = crate::dag::state_hash_spec(gs);
            assert(crate::dag::newly_expanded(orig.dag, self.dag, d, gs)) by {
                assert(pre_expand.dag.node_at(d, h) matches Some(n) && n.children is None);
                let c2 = self.dag.node_at(d, h)->Some_0.children->Some_0;
                assert forall|p: Piece|
                    crate::dag::possibilities(self.dag.layers@[d].piece, gs.bag).contains(p) && !(
                    crate::movegen::spawn_loc(p, 19).obstructed_spec(gs.board)
                        && crate::movegen::spawn_loc(p, 20).obstructed_spec(gs.board)) implies (
                #[trigger] crate::dag::list_of(c2, p)).len() > 0 by {
                    let ps = crate::dag::possibilities(self.dag.layers@[d].piece, gs.bag);
                    assert(self.dag.layers@[d].piece == pre_expand.dag.layers@[d].piece);
                    assert(possibilities@.contains(p)) by {
                        match next {
                            Some(q) => {
                                assert(ps =~= seq![q]);
                                assert(p == q);
                                assert(possibilities@[0] == q);
                            },
                            None => {
                                assert(ps == gs.bag.members());
                            },
                        }
                    }
                    let j = choose|j: int|
                        0 <= j < possibilities@.len() && possibilities@[j] == p;
                    assert(children@[p.idx()]@.len() > 0);
                }
            }
        }
        stats
    }
}

} // verus!
