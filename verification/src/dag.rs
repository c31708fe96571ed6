//! The layered search graph: one layer per search depth, each mapping hashed
//! game states to nodes. Nodes cache per-piece child lists sorted best-first;
//! a node's evaluation always equals the recomputation rule of its layer.

use vstd::prelude::*;

use std::collections::HashMap;

use crate::board::popcount;
use crate::data::clear_mask;
use crate::data::GameState;
use crate::data::Piece;
use crate::data::PieceSet;
use crate::data::Placement;
use crate::data::Spin;
use crate::eval::Evaluation;
use crate::rng::exponential_index;
use crate::rng::pick_index;

verus! {

broadcast use vstd::std_specs::hash::group_hash_axioms;

/// A cached edge to a child node: the placement that reaches it, the reward
/// collected on the way, and the child's projected evaluation plus reward.
pub struct Child<E: Evaluation> {
    pub mv: Placement,
    pub reward: E::Reward,
    pub cached_eval: E,
}

impl<E: Evaluation> Clone for Child<E> {
    fn clone(&self) -> (r: Self)
        ensures
            r == *self,
    {
        Child { mv: self.mv, reward: self.reward, cached_eval: self.cached_eval }
    }
}

impl<E: Evaluation> Copy for Child<E> {

}

/// Per-piece child lists of an expanded node, indexed by piece order.
pub struct ChildLists<E: Evaluation> {
    pub lists: [Vec<Child<E>>; 7],
}

/// What the expansion of a node supplies for one child: the state reached,
/// the placement that reaches it, and the evaluator's verdict.
pub struct ChildData<E: Evaluation> {
    pub resulting_state: GameState,
    pub mv: Placement,
    pub eval: E,
    pub reward: E::Reward,
}

/// A pending best-first propagation step: the handle of a grandparent to
/// revisit, the placement and speculation piece naming the child entry, and
/// the handle of the updated child.
#[derive(Clone, Copy)]
pub struct BackpropUpdate {
    pub parent: u64,
    pub speculation_piece: Piece,
    pub mv: Placement,
    pub child: u64,
}

/// The child list of `c` for piece `p`.
pub open spec fn list_of<E: Evaluation>(c: ChildLists<E>, p: Piece) -> Seq<Child<E>> {
    c.lists@[p.idx()]@
}

/// The cached evaluation at the head of a child list, if any.
pub open spec fn head_of<E: Evaluation>(s: Seq<Child<E>>) -> Option<E> {
    if s.len() == 0 {
        None
    } else {
        Some(s[0].cached_eval)
    }
}

/// The better of two optional evaluations; an absent side loses.
pub open spec fn opt_max<E: Evaluation>(a: Option<E>, b: Option<E>) -> Option<E> {
    match (a, b) {
        (Some(x), Some(y)) => if x.le(y) {
            Some(y)
        } else {
            Some(x)
        },
        (Some(x), None) => Some(x),
        (None, y) => y,
    }
}

/// The best evaluation reachable for speculation piece `p`: on a known-piece
/// layer the hold option is considered beside the piece itself; on a
/// speculated layer only the piece's own list counts.
pub open spec fn best_for<E: Evaluation>(
    c: ChildLists<E>,
    known: Option<Piece>,
    reserve: Piece,
    p: Piece,
) -> Option<E> {
    if known is Some {
        opt_max(head_of(list_of(c, p)), head_of(list_of(c, reserve)))
    } else {
        head_of(list_of(c, p))
    }
}

/// The pieces a node's evaluation averages over: the layer's piece when it is
/// known, otherwise the members of the node's bag.
pub open spec fn possibilities(known: Option<Piece>, bag: PieceSet) -> Seq<Piece> {
    match known {
        Some(p) => seq![p],
        None => bag.members(),
    }
}

/// The recomputation rule: the bag-average of per-piece bests.
pub open spec fn recompute_rule<E: Evaluation>(
    c: ChildLists<E>,
    known: Option<Piece>,
    bag: PieceSet,
    reserve: Piece,
) -> E {
    E::avg_spec(possibilities(known, bag).map_values(|p: Piece| best_for(c, known, reserve, p)))
}

/// Cached evaluations never increase along a child list.
pub open spec fn sorted_desc<E: Evaluation>(s: Seq<Child<E>>) -> bool {
    forall|i: int, j: int| 0 <= i <= j < s.len() ==> s[j].cached_eval.le(s[i].cached_eval)
}

/// A node of the search graph.
pub struct Node<E: Evaluation> {
    pub parents: Vec<(u64, Placement, Piece)>,
    pub eval: E,
    pub children: Option<ChildLists<E>>,
    pub expanding: bool,
    pub bag: PieceSet,
    pub reserve: Piece,
}

/// A node is well formed for a layer whose piece is `known` when its child
/// lists are sorted best-first, its evaluation equals the recomputation rule,
/// and on a known-piece layer every other piece's list is empty.
pub open spec fn node_wf<E: Evaluation>(n: Node<E>, known: Option<Piece>) -> bool {
    match n.children {
        None => true,
        Some(c) => {
            &&& forall|p: Piece| sorted_desc(#[trigger] list_of(c, p))
            &&& n.eval == recompute_rule(c, known, n.bag, n.reserve)
            &&& (match known {
                Some(q) => forall|p: Piece| p != q ==> (#[trigger] list_of(c, p)).len() == 0,
                None => true,
            })
        },
    }
}

/// Two nodes that differ at most in the claim flag that guards expansion.
pub open spec fn node_same_but_claim<E: Evaluation>(a: Node<E>, b: Node<E>) -> bool {
    &&& a.parents == b.parents
    &&& a.eval == b.eval
    &&& a.children == b.children
    &&& a.bag == b.bag
    &&& a.reserve == b.reserve
}

/// Two layers that differ at most in claim flags.
pub open spec fn layer_same_but_claims<E: Evaluation>(a: Layer<E>, b: Layer<E>) -> bool {
    &&& a.piece == b.piece
    &&& a.index_of@ == b.index_of@
    &&& a.nodes@.len() == b.nodes@.len()
    &&& forall|n: int|
        0 <= n < a.nodes@.len() ==> node_same_but_claim(#[trigger] a.nodes@[n], b.nodes@[n])
}

/// Two graphs that differ at most in which nodes are claimed for expansion.
pub open spec fn same_but_claims<E: Evaluation>(a: Dag<E>, b: Dag<E>) -> bool {
    &&& a.root == b.root
    &&& a.layers@.len() == b.layers@.len()
    &&& forall|l: int|
        0 <= l < a.layers@.len() ==> layer_same_but_claims(#[trigger] a.layers@[l], b.layers@[l])
}

/// A chain of game transitions: `s1` follows from `s0` by playing the
/// recorded (piece, placement) steps in order.
pub open spec fn advance_chain(s0: GameState, steps: Seq<(Piece, Placement)>, s1: GameState) -> bool
    decreases steps.len(),
{
    if steps.len() == 0 {
        s0 == s1
    } else {
        exists|mid: GameState|
            #[trigger] crate::data::advances_to(s0, steps[0].0, steps[0].1, mid) && advance_chain(
                mid,
                steps.skip(1),
                s1,
            )
    }
}

/// Extending a chain by one transition at its end keeps it a chain.
proof fn lemma_advance_chain_push(
    s0: GameState,
    steps: Seq<(Piece, Placement)>,
    s1: GameState,
    next: Piece,
    mv: Placement,
    s2: GameState,
)
    requires
        advance_chain(s0, steps, s1),
        crate::data::advances_to(s1, next, mv, s2),
    ensures
        advance_chain(s0, steps.push((next, mv)), s2),
    decreases steps.len(),
{
    let pushed = steps.push((next, mv));
    if steps.len() == 0 {
        assert(pushed.skip(1) =~= Seq::<(Piece, Placement)>::empty());
        assert(pushed[0] == (next, mv));
        assert(crate::data::advances_to(s0, pushed[0].0, pushed[0].1, s2));
        assert(advance_chain(s2, pushed.skip(1), s2));
    } else {
        let mid = choose|mid: GameState|
            #[trigger] crate::data::advances_to(s0, steps[0].0, steps[0].1, mid) && advance_chain(
                mid,
                steps.skip(1),
                s1,
            );
        lemma_advance_chain_push(mid, steps.skip(1), s1, next, mv, s2);
        assert(pushed.skip(1) =~= steps.skip(1).push((next, mv)));
        assert(pushed[0] == steps[0]);
        assert(crate::data::advances_to(s0, pushed[0].0, pushed[0].1, mid));
        assert(advance_chain(mid, pushed.skip(1), s2));
    }
}

/// Between `pre` and `post`, the node of state `gs` at `depth` passed from
/// unexpanded to expanded; each piece its layer may draw whose spawn
/// position is not fully blocked on the state's board received a non-empty
/// child list.
pub open spec fn newly_expanded<E: Evaluation>(
    pre: Dag<E>,
    post: Dag<E>,
    depth: int,
    gs: GameState,
) -> bool {
    let h = state_hash_spec(gs);
    &&& (pre.node_at(depth, h) matches Some(n) && n.children is None)
    &&& (post.node_at(depth, h) matches Some(n2) && (n2.children matches Some(c) && (forall|
        p: Piece,
    |
        #![trigger list_of(c, p)]
        possibilities(post.layers@[depth].piece, gs.bag).contains(p) && !(crate::movegen::spawn_loc(
            p,
            19,
        ).obstructed_spec(gs.board) && crate::movegen::spawn_loc(p, 20).obstructed_spec(gs.board))
            ==> list_of(c, p).len() > 0)))
}

/// How a cached child entry arises from an expansion batch at `depth` of the
/// graph `pre`: some supplied child carries its placement and reward, and
/// its cached evaluation is that child's node evaluation plus the reward —
/// the node already filed below when the state was known, or the evaluator's
/// verdict of a batch child with the same state handle when this expansion
/// created the node.
pub open spec fn entry_from_batch<E: Evaluation>(
    pre: Dag<E>,
    depth: int,
    children: [Vec<ChildData<E>>; 7],
    p: Piece,
    entry: Child<E>,
) -> bool {
    exists|k2: int|
        0 <= k2 < children@[p.idx()]@.len() && {
            let d = (#[trigger] children@[p.idx()]@[k2]);
            &&& entry.mv == d.mv
            &&& entry.reward == d.reward
            &&& (match pre.eval_at(depth + 1, state_hash_spec(d.resulting_state)) {
                Some(e0) => entry.cached_eval == e0.add_spec(d.reward),
                None => exists|pi3: int, k3: int|
                    0 <= pi3 < 7 && 0 <= k3 < children@[pi3]@.len() && state_hash_spec(
                        (#[trigger] children@[pi3]@[k3]).resulting_state,
                    ) == state_hash_spec(d.resulting_state) && entry.cached_eval
                        == children@[pi3]@[k3].eval.add_spec(d.reward),
            })
        }
}

/// Fresh, empty child lists.
fn new_child_lists<E: Evaluation>() -> (c: ChildLists<E>)
    ensures
        forall|p: Piece| (#[trigger] list_of(c, p)).len() == 0,
{
    let c = ChildLists::<E> {
        lists: [
            Vec::new(),
            Vec::new(),
            Vec::new(),
            Vec::new(),
            Vec::new(),
            Vec::new(),
            Vec::new(),
        ],
    };
    c
}

/// The better of two optional evaluations, computed.
fn opt_max_exec<E: Evaluation>(a: Option<E>, b: Option<E>) -> (r: Option<E>)
    ensures
        r == opt_max(a, b),
{
    match (a, b) {
        (Some(x), Some(y)) => if x.le_exec(&y) {
            Some(y)
        } else {
            Some(x)
        },
        (Some(x), None) => Some(x),
        (None, y) => y,
    }
}

/// The head of a child list, computed.
fn head_exec<E: Evaluation>(list: &Vec<Child<E>>) -> (r: Option<E>)
    ensures
        r == head_of(list@),
{
    if list.len() == 0 {
        None
    } else {
        Some(list[0].cached_eval)
    }
}

/// The best evaluation for speculation piece `p`, computed.
fn best_for_exec<E: Evaluation>(
    c: &ChildLists<E>,
    known: Option<Piece>,
    reserve: Piece,
    p: Piece,
) -> (r: Option<E>)
    ensures
        r == best_for(*c, known, reserve, p),
{
    let own = head_exec(&c.lists[p.index()]);
    proof {
        assert(own == head_of(list_of(*c, p)));
    }
    match known {
        Some(_) => {
            let held = head_exec(&c.lists[reserve.index()]);
            proof {
                assert(held == head_of(list_of(*c, reserve)));
            }
            opt_max_exec(own, held)
        },
        None => own,
    }
}

/// The recomputation rule, computed: gather the per-piece bests over the
/// possibilities and average them.
fn recompute_eval<E: Evaluation>(
    c: &ChildLists<E>,
    known: Option<Piece>,
    bag: PieceSet,
    reserve: Piece,
) -> (e: E)
    ensures
        e == recompute_rule(*c, known, bag, reserve),
{
    let ghost pseq = possibilities(known, bag);
    let mut bests: Vec<Option<E>> = Vec::new();
    match known {
        Some(p) => {
            bests.push(best_for_exec(c, known, reserve, p));
        },
        None => {
            let pieces = bag.to_vec();
            let mut i: usize = 0;
            while i < pieces.len()
                invariant
                    i <= pieces@.len(),
                    pieces@ == pseq,
                    bests@.len() == i,
                    forall|k: int|
                        0 <= k < i as int ==> bests@[k] == best_for(*c, known, reserve, pseq[k]),
                decreases pieces@.len() - i,
            {
                bests.push(best_for_exec(c, known, reserve, pieces[i]));
                i = i + 1;
            }
        },
    }
    proof {
        let target = pseq.map_values(|p: Piece| best_for(*c, known, reserve, p));
        assert(bests@.len() == target.len());
        assert forall|k: int| 0 <= k < target.len() implies bests@[k] == target[k] by {
            assert(target[k] == best_for(*c, known, reserve, pseq[k]));
        }
        assert(bests@ =~= target);
    }
    E::average(&bests)
}

/// Insert `c` into a sorted list, keeping it sorted; returns the position.
fn insert_sorted<E: Evaluation>(list: &mut Vec<Child<E>>, c: Child<E>) -> (j: usize)
    requires
        sorted_desc(old(list)@),
        old(list)@.len() < usize::MAX,
    ensures
        sorted_desc(final(list)@),
        j <= old(list)@.len(),
        final(list)@ == old(list)@.insert(j as int, c),
        final(list)@.len() == old(list)@.len() + 1,
{
    let mut j: usize = 0;
    while j < list.len() && !list[j].cached_eval.le_exec(&c.cached_eval)
        invariant
            j <= list@.len(),
            sorted_desc(list@),
            list@ == old(list)@,
            forall|k: int| 0 <= k < j as int ==> !(#[trigger] list@[k].cached_eval.le(c.cached_eval)),
        decreases list@.len() - j,
    {
        j = j + 1;
    }
    let ghost pre = list@;
    list.insert(j, c);
    proof {
        let post = list@;
        assert(post.len() == pre.len() + 1);
        assert forall|a: int, b: int| 0 <= a <= b < post.len() implies post[b].cached_eval.le(
            post[a].cached_eval,
        ) by {
            let ja = j as int;
            let va = if a < ja {
                pre[a]
            } else if a == ja {
                c
            } else {
                pre[a - 1]
            };
            let vb = if b < ja {
                pre[b]
            } else if b == ja {
                c
            } else {
                pre[b - 1]
            };
            assert(post[a] == va);
            assert(post[b] == vb);
            if a == ja && b == ja {
                E::lemma_le_total(c.cached_eval, c.cached_eval);
            } else if b == ja {
                // a < j: the scan passed pre[a], so c <= pre[a] by totality
                E::lemma_le_total(pre[a].cached_eval, c.cached_eval);
            } else if a == ja {
                // b > j: pre[b - 1] <= pre[j] <= c
                if ja < pre.len() {
                    assert(pre[ja].cached_eval.le(c.cached_eval));
                    assert(pre[b - 1].cached_eval.le(pre[ja].cached_eval));
                    E::lemma_le_trans(
                        pre[b - 1].cached_eval,
                        pre[ja].cached_eval,
                        c.cached_eval,
                    );
                }
            }
        }
    }
    j
}

/// The list `post` is `pre` with the entry at `i` taken out, its cached
/// evaluation refreshed from the child's current evaluation plus its stored
/// reward, and put back at position `j`.
pub open spec fn refreshed_entry<E: Evaluation>(
    pre: Seq<Child<E>>,
    post: Seq<Child<E>>,
    child_eval: E,
    i: int,
    j: int,
) -> bool {
    let entry = pre[i];
    let updated = Child {
        mv: entry.mv,
        reward: entry.reward,
        cached_eval: child_eval.add_spec(entry.reward),
    };
    &&& 0 <= i < pre.len()
    &&& 0 <= j < pre.len()
    &&& post == pre.remove(i).insert(j, updated)
}

/// Locate the entry for `placement`, refresh its cached evaluation from the
/// child's current evaluation plus the stored reward, and move it to its
/// sorted position.
///
/// Reports whether the head of the list may have changed: the refreshed
/// entry started at the head or ended there. This is deliberately wider than
/// reporting only an entry that ends at the head: when the former best entry
/// sinks, the list's head is a different entry with a different value, and
/// the node's evaluation must be recomputed or it would go stale against the
/// recomputation rule that every node maintains as its invariant. Callers
/// recompute exactly when this reports true, which is what keeps that
/// invariant; a report on the final index alone would not.
pub fn update_child<E: Evaluation>(
    list: &mut Vec<Child<E>>,
    placement: Placement,
    child_eval: E,
) -> (head_changed: bool)
    requires
        sorted_desc(old(list)@),
    ensures
        sorted_desc(final(list)@),
        final(list)@.len() == old(list)@.len(),
        !head_changed ==> head_of(final(list)@) == head_of(old(list)@),
        (forall|k: int| 0 <= k < old(list)@.len() ==> (#[trigger] old(list)@[k]).mv != placement)
            ==> final(list)@ == old(list)@ && !head_changed,
        (exists|k: int| 0 <= k < old(list)@.len() && (#[trigger] old(list)@[k]).mv == placement)
            ==> (exists|i: int, j: int|
            #![trigger refreshed_entry(old(list)@, final(list)@, child_eval, i, j)]
            refreshed_entry(old(list)@, final(list)@, child_eval, i, j) && old(list)@[i].mv
                == placement && head_changed == (i == 0 || j == 0)),
{
    let mut i: usize = 0;
    let mut found = false;
    while i < list.len() && !found
        invariant
            i <= list@.len(),
            list@ == old(list)@,
            found ==> i < list@.len() && list@[i as int].mv == placement,
            !found ==> forall|k: int| 0 <= k < i as int ==> (#[trigger] list@[k]).mv != placement,
        decreases list@.len() - i + (if found {
            0int
        } else {
            1int
        }),
    {
        if list[i].mv == placement {
            found = true;
        } else {
            i = i + 1;
        }
    }
    if !found {
        return false;
    }
    let entry = list[i];
    let ghost pre = list@;
    let removed = list.remove(i);
    proof {
        let post = list@;
        assert forall|a: int, b: int| 0 <= a <= b < post.len() implies post[b].cached_eval.le(
            post[a].cached_eval,
        ) by {
            let ia = i as int;
            let a0 = if a < ia {
                a
            } else {
                a + 1
            };
            let b0 = if b < ia {
                b
            } else {
                b + 1
            };
            assert(post[a] == pre[a0]);
            assert(post[b] == pre[b0]);
        }
    }
    let updated = Child::<E> {
        mv: removed.mv,
        reward: removed.reward,
        cached_eval: child_eval.add(&removed.reward),
    };
    let ghost mid = list@;
    let j = insert_sorted(list, updated);
    let head_changed = i == 0 || j == 0;
    proof {
        if !head_changed {
            assert(list@[0] == mid[0]);
            assert(mid[0] == pre[0]);
            assert(list@.len() == pre.len());
            assert(head_of(list@) == head_of(pre));
        }
        assert(pre[i as int].mv == placement);
        assert(refreshed_entry(pre, list@, child_eval, i as int, j as int));
    }
    head_changed
}

/// One step of the content hash: fold a value into the accumulator by
/// exclusive-or and a multiplication modulo two to the sixty-fourth.
pub open spec fn mix_spec(h: u64, v: u64) -> u64 {
    (((h ^ v) as int * 0x100000001b3) % 0x10000000000000000) as u64
}

/// One mixing step, computed through 128-bit arithmetic.
fn mix(h: u64, v: u64) -> (r: u64)
    ensures
        r == mix_spec(h, v),
{
    let x: u128 = (h ^ v) as u128;
    proof {
        assert(x * 0x100000001b3u128 < 0x100000000000000000000000000000000) by (nonlinear_arith)
            requires
                x < 0x10000000000000000,
        ;
    }
    let prod: u128 = x * 0x100000001b3u128;
    (prod % 0x10000000000000000u128) as u64
}

/// The hash of the first `n` columns.
pub open spec fn cols_hash(cols: Seq<u64>, n: int) -> u64
    decreases n,
{
    if n <= 0 {
        0xcbf29ce484222325u64
    } else {
        mix_spec(cols_hash(cols, n - 1), cols[n - 1])
    }
}

/// The content hash of a game state: the handle under which the state map
/// files its node. Distinct states may collide; the search accepts that
/// aliasing.
pub open spec fn state_hash_spec(s: GameState) -> u64 {
    let h0 = cols_hash(s.board.cols@, 10);
    let h1 = mix_spec(h0, s.bag.bits as u64);
    let h2 = mix_spec(h1, s.reserve.idx() as u64);
    let h3 = mix_spec(
        h2,
        if s.back_to_back {
            1u64
        } else {
            0u64
        },
    );
    mix_spec(h3, s.combo as u64)
}

/// Compute the content hash of a game state.
pub fn state_hash(s: &GameState) -> (r: u64)
    ensures
        r == state_hash_spec(*s),
{
    let mut h: u64 = 0xcbf29ce484222325;
    let mut x: usize = 0;
    while x < 10
        invariant
            x <= 10,
            h == cols_hash(s.board.cols@, x as int),
        decreases 10 - x,
    {
        h = mix(h, s.board.cols[x]);
        x = x + 1;
    }
    h = mix(h, s.bag.bits as u64);
    h = mix(h, s.reserve.index() as u64);
    h = mix(
        h,
        if s.back_to_back {
            1
        } else {
            0
        },
    );
    mix(h, s.combo as u64)
}

/// One layer of the search graph: the nodes of one search depth, keyed by
/// hashed game state, and the depth's piece when it is known.
pub struct Layer<E: Evaluation> {
    pub nodes: Vec<Node<E>>,
    pub index_of: HashMap<u64, usize>,
    pub piece: Option<Piece>,
}

impl<E: Evaluation> Layer<E> {
    /// Every node is well formed for this layer's piece, and every filed
    /// handle names a node.
    pub open spec fn wf(self) -> bool {
        &&& forall|i: int|
            0 <= i < self.nodes@.len() ==> node_wf(#[trigger] self.nodes@[i], self.piece)
        &&& forall|h: u64|
            self.index_of@.contains_key(h) ==> (#[trigger] self.index_of@[h]) < self.nodes@.len()
    }

    /// A fresh layer whose piece is not yet known.
    pub fn speculated() -> (l: Layer<E>)
        ensures
            l.wf(),
            l.piece is None,
            l.nodes@.len() == 0,
            l.index_of@ == Map::<u64, usize>::empty(),
    {
        Layer { nodes: Vec::new(), index_of: HashMap::new(), piece: None }
    }

    /// A fresh layer with a known piece.
    pub fn known(p: Piece) -> (l: Layer<E>)
        ensures
            l.wf(),
            l.piece == Some(p),
            l.nodes@.len() == 0,
            l.index_of@ == Map::<u64, usize>::empty(),
    {
        Layer { nodes: Vec::new(), index_of: HashMap::new(), piece: Some(p) }
    }

    /// The slot of the node filed under `h`, if any.
    pub fn lookup(&self, h: u64) -> (r: Option<usize>)
        requires
            self.wf(),
        ensures
            match r {
                Some(i) => i < self.nodes@.len() && self.index_of@.contains_key(h)
                    && self.index_of@[h] == i,
                None => !self.index_of@.contains_key(h),
            },
    {
        match self.index_of.get(&h) {
            Some(i) => Some(*i),
            None => None,
        }
    }

    /// The slot of the node filed under `h`, creating an unexpanded node
    /// when the handle is new.
    fn get_or_insert_node(&mut self, h: u64, eval: E, bag: PieceSet, reserve: Piece) -> (i: usize)
        requires
            old(self).wf(),
        ensures
            final(self).wf(),
            i < final(self).nodes@.len(),
            final(self).piece == old(self).piece,
            final(self).index_of@.contains_key(h) && final(self).index_of@[h] == i,
            old(self).index_of@.contains_key(h) ==> *final(self) == *old(self) && i == old(
                self,
            ).index_of@[h as u64],
            !old(self).index_of@.contains_key(h) ==> {
                let n = final(self).nodes@[i as int];
                &&& final(self).nodes@.len() == old(self).nodes@.len() + 1
                &&& i == old(self).nodes@.len()
                &&& forall|k: int|
                    0 <= k < old(self).nodes@.len() ==> #[trigger] final(self).nodes@[k] == old(
                        self,
                    ).nodes@[k]
                &&& n.parents@.len() == 0
                &&& n.eval == eval
                &&& n.children is None
                &&& n.expanding == false
                &&& n.bag == bag
                &&& n.reserve == reserve
                &&& final(self).index_of@ == old(self).index_of@.insert(h, i)
            },
    {
        let existing = match self.index_of.get(&h) {
            Some(i) => Some(*i),
            None => None,
        };
        match existing {
            Some(i) => i,
            None => {
                let i = self.nodes.len();
                let node = Node {
                    parents: Vec::new(),
                    eval,
                    children: None,
                    expanding: false,
                    bag,
                    reserve,
                };
                self.nodes.push(node);
                self.index_of.insert(h, i);
                proof {
                    assert(node_wf(self.nodes@[i as int], self.piece));
                }
                i
            },
        }
    }

    /// File a child node during expansion of a parent in the layer above:
    /// create the node if its state is new, link it to the parent, and hand
    /// back its current evaluation.
    pub fn create_node(
        &mut self,
        h: u64,
        eval: E,
        bag: PieceSet,
        reserve: Piece,
        parent: u64,
        mv: Placement,
        speculation_piece: Piece,
    ) -> (e: E)
        requires
            old(self).wf(),
        ensures
            final(self).wf(),
            final(self).piece == old(self).piece,
            final(self).nodes@.len() >= old(self).nodes@.len(),
            final(self).index_of@.contains_key(h),
            e == final(self).nodes@[final(self).index_of@[h] as int].eval,
            old(self).index_of@.contains_key(h) ==> e == old(self).nodes@[old(
                self,
            ).index_of@[h] as int].eval,
            !old(self).index_of@.contains_key(h) ==> e == eval,
            final(self).nodes@[final(self).index_of@[h] as int].parents@ == (if old(
                self,
            ).index_of@.contains_key(h) {
                old(self).nodes@[old(self).index_of@[h] as int].parents@
            } else {
                Seq::empty()
            }).push((parent, mv, speculation_piece)),
            forall|h2: u64|
                #[trigger] old(self).index_of@.contains_key(h2)
                    ==> final(self).index_of@.contains_key(h2),
            forall|h2: u64|
                #[trigger] old(self).index_of@.contains_key(h2) ==> final(self).eval_of(h2) == old(
                    self,
                ).eval_of(h2),
            !old(self).index_of@.contains_key(h) ==> final(self).eval_of(h) == Some(eval),
            forall|h2: u64|
                #[trigger] final(self).index_of@.contains_key(h2) ==> old(
                    self,
                ).index_of@.contains_key(h2) || h2 == h,
    {
        let i = self.get_or_insert_node(h, eval, bag, reserve);
        let ghost pre = self.nodes@;
        let n = &mut self.nodes[i];
        let ghost before = *n;
        n.parents.push((parent, mv, speculation_piece));
        let e = n.eval;
        proof {
            assert(self.nodes@ == pre.update(i as int, self.nodes@[i as int]));
            assert forall|k: int| 0 <= k < self.nodes@.len() implies node_wf(
                #[trigger] self.nodes@[k],
                self.piece,
            ) by {
                if k == i as int {
                    assert(node_wf(pre[k], self.piece));
                    assert(self.nodes@[k].children == pre[k].children);
                    assert(self.nodes@[k].eval == pre[k].eval);
                    assert(self.nodes@[k].bag == pre[k].bag);
                    assert(self.nodes@[k].reserve == pre[k].reserve);
                }
            }
        }
        e
    }

    /// The evaluation of the node filed under `h`, if any.
    pub open spec fn eval_of(self, h: u64) -> Option<E> {
        if self.index_of@.contains_key(h) {
            Some(self.nodes@[self.index_of@[h] as int].eval)
        } else {
            None
        }
    }

    /// The node's current evaluation, by handle.
    pub fn get_eval(&self, h: u64) -> (r: Option<E>)
        requires
            self.wf(),
        ensures
            r == self.eval_of(h),
    {
        match self.lookup(h) {
            Some(i) => Some(self.nodes[i].eval),
            None => None,
        }
    }

    /// Fix the depth's piece: keep only each node's child list for that
    /// piece, empty the others, and recompute each node's evaluation under
    /// the known-piece rule. Handles, parent links and the kept lists are
    /// unchanged.
    pub fn despeculate(&mut self, piece: Piece)
        requires
            old(self).wf(),
            old(self).piece is None,
        ensures
            final(self).wf(),
            final(self).piece == Some(piece),
            final(self).index_of@ == old(self).index_of@,
            final(self).nodes@.len() == old(self).nodes@.len(),
            forall|k: int|
                0 <= k < final(self).nodes@.len() ==> {
                    let n = #[trigger] final(self).nodes@[k];
                    let o = old(self).nodes@[k];
                    &&& n.parents == o.parents
                    &&& n.bag == o.bag
                    &&& n.reserve == o.reserve
                    &&& n.expanding == o.expanding
                    &&& (o.children is None ==> n == o)
                    &&& (match (o.children, n.children) {
                        (Some(c0), Some(c)) => {
                            &&& list_of(c, piece) == list_of(c0, piece)
                            &&& forall|p: Piece|
                                p != piece ==> (#[trigger] list_of(c, p)).len() == 0
                        },
                        (None, None) => true,
                        _ => false,
                    })
                },
    {
        let ghost pre = self.nodes@;
        let mut i: usize = 0;
        while i < self.nodes.len()
            invariant
                i <= self.nodes@.len(),
                self.nodes@.len() == pre.len(),
                self.piece == old(self).piece,
                self.index_of@ == old(self).index_of@,
                forall|k: int| i as int <= k < pre.len() ==> #[trigger] self.nodes@[k] == pre[k],
                forall|k: int| 0 <= k < pre.len() ==> node_wf(pre[k], None),
                forall|k: int|
                    0 <= k < i as int ==> {
                        let n = #[trigger] self.nodes@[k];
                        let o = pre[k];
                        &&& node_wf(n, Some(piece))
                        &&& n.parents == o.parents
                        &&& n.bag == o.bag
                        &&& n.reserve == o.reserve
                        &&& n.expanding == o.expanding
                        &&& (o.children is None ==> n == o)
                        &&& (match (o.children, n.children) {
                            (Some(c0), Some(c)) => {
                                &&& list_of(c, piece) == list_of(c0, piece)
                                &&& forall|p: Piece|
                                    p != piece ==> (#[trigger] list_of(c, p)).len() == 0
                            },
                            (None, None) => true,
                            _ => false,
                        })
                    },
            decreases pre.len() - i,
        {
            let has_children = self.nodes[i].children.is_some();
            if has_children {
                let kept: Vec<Child<E>> = match &self.nodes[i].children {
                    Some(c) => clone_children(&c.lists[piece.index()]),
                    None => Vec::new(),
                };
                let bag = self.nodes[i].bag;
                let reserve = self.nodes[i].reserve;
                let mut lists = new_child_lists::<E>();
                let ghost init_lists = lists;
                let ghost kept_seq = kept@;
                lists.lists[piece.index()] = kept;
                proof {
                    let c0 = self.nodes@[i as int].children->Some_0;
                    assert(lists.lists@ == init_lists.lists@.update(piece.idx(), kept));
                    assert(list_of(lists, piece) == kept_seq);
                    assert(kept_seq == list_of(c0, piece));
                    assert forall|p: Piece| p != piece implies (#[trigger] list_of(
                        lists,
                        p,
                    )).len() == 0 by {
                        assert(p.idx() != piece.idx());
                        assert(lists.lists@[p.idx()] == init_lists.lists@[p.idx()]);
                        assert(list_of(init_lists, p).len() == 0);
                    }
                    assert(node_wf(pre[i as int], None));
                    assert(sorted_desc(list_of(lists, piece)));
                }
                let e = recompute_eval(&lists, Some(piece), bag, reserve);
                let ghost pre_write = self.nodes@;
                let n = &mut self.nodes[i];
                n.children = Some(lists);
                n.eval = e;
                proof {
                    assert(self.nodes@ =~= pre_write.update(i as int, self.nodes@[i as int]));
                    assert forall|p: Piece| sorted_desc(
                        #[trigger] list_of(self.nodes@[i as int].children->Some_0, p),
                    ) by {
                        if p != piece {
                            assert(list_of(lists, p).len() == 0);
                        }
                    }
                    assert(node_wf(self.nodes@[i as int], Some(piece)));
                }
            }
            i = i + 1;
        }
        self.piece = Some(piece);
    }
}

/// With the heads of every per-piece list equal, the recomputation rule
/// gives the same evaluation: the rule reads only the list heads.
proof fn lemma_rule_same_heads<E: Evaluation>(
    c1: ChildLists<E>,
    c2: ChildLists<E>,
    known: Option<Piece>,
    bag: PieceSet,
    reserve: Piece,
)
    requires
        forall|p: Piece| head_of(#[trigger] list_of(c1, p)) == head_of(list_of(c2, p)),
    ensures
        recompute_rule(c1, known, bag, reserve) == recompute_rule(c2, known, bag, reserve),
{
    let ps = possibilities(known, bag);
    let s1 = ps.map_values(|p: Piece| best_for(c1, known, reserve, p));
    let s2 = ps.map_values(|p: Piece| best_for(c2, known, reserve, p));
    assert forall|k: int| 0 <= k < ps.len() implies s1[k] == s2[k] by {
        let p = ps[k];
        assert(head_of(list_of(c1, p)) == head_of(list_of(c2, p)));
        assert(head_of(list_of(c1, reserve)) == head_of(list_of(c2, reserve)));
    }
    assert(s1 =~= s2);
}

/// A claimed leaf: the depth and game state of a node whose expansion the
/// caller has won, together with the depth's piece when it is known.
pub struct Selection {
    pub depth: usize,
    pub game_state: GameState,
    pub piece: Option<Piece>,
}

impl Selection {
    /// The game state of the selected leaf and the known piece of its depth.
    pub fn state(&self) -> (r: (GameState, Option<Piece>))
        ensures
            r == (self.game_state, self.piece),
    {
        (self.game_state, self.piece)
    }
}

/// The layered search graph itself.
pub struct Dag<E: Evaluation> {
    pub root: GameState,
    pub layers: Vec<Layer<E>>,
}

impl<E: Evaluation> Dag<E> {
    /// There is at least one layer, every layer is well formed, and the root
    /// state is a valid game state.
    pub open spec fn wf(self) -> bool {
        &&& self.layers@.len() >= 1
        &&& forall|l: int| 0 <= l < self.layers@.len() ==> (#[trigger] self.layers@[l]).wf()
        &&& self.root.wf()
    }

    /// The first layer whose piece is not yet known, or the layer count when
    /// every layer is known.
    pub open spec fn first_speculated_from(layers: Seq<Layer<E>>, i: int) -> int
        decreases layers.len() - i,
    {
        if i < 0 || i >= layers.len() {
            layers.len() as int
        } else if layers[i].piece is None {
            i
        } else {
            Self::first_speculated_from(layers, i + 1)
        }
    }

    /// Build a graph over `root`: one known-piece layer per queue entry, one
    /// speculated layer after them, and the root state filed in the first
    /// layer.
    pub fn new(root: GameState, queue: &Vec<Piece>) -> (d: Dag<E>)
        requires
            root.wf(),
        ensures
            d.wf(),
            d.root == root,
            d.layers@.len() == queue@.len() + 1,
            forall|i: int|
                0 <= i < queue@.len() ==> (#[trigger] d.layers@[i]).piece == Some(queue@[i]),
            d.layers@[queue@.len() as int].piece is None,
            d.node_at(0, state_hash_spec(root)) matches Some(n) && n.children is None && n.eval
                == E::default_spec() && !n.expanding && n.bag == root.bag && n.reserve
                == root.reserve,
    {
        let mut layers: Vec<Layer<E>> = Vec::new();
        let mut i: usize = 0;
        while i < queue.len()
            invariant
                i <= queue@.len(),
                layers@.len() == i,
                forall|k: int|
                    0 <= k < i as int ==> (#[trigger] layers@[k]).piece == Some(queue@[k])
                        && layers@[k].wf(),
                i > 0 ==> layers@[0].index_of@ == Map::<u64, usize>::empty(),
            decreases queue@.len() - i,
        {
            layers.push(Layer::known(queue[i]));
            i = i + 1;
        }
        layers.push(Layer::speculated());
        let mut d = Dag { root, layers };
        proof {
            assert(!d.layers@[0].index_of@.contains_key(state_hash_spec(root)));
        }
        d.initialize_root();
        d
    }

    /// File the root state in the first layer, if it is not already there.
    fn initialize_root(&mut self)
        requires
            old(self).wf(),
        ensures
            final(self).wf(),
            final(self).root == old(self).root,
            final(self).layers@.len() == old(self).layers@.len(),
            forall|i: int|
                0 <= i < old(self).layers@.len() ==> (#[trigger] final(self).layers@[i]).piece
                    == old(self).layers@[i].piece,
            forall|i: int|
                1 <= i < old(self).layers@.len() ==> #[trigger] final(self).layers@[i] == old(
                    self,
                ).layers@[i],
            final(self).node_at(0, state_hash_spec(final(self).root)) is Some,
            old(self).layers@[0].index_of@.contains_key(state_hash_spec(old(self).root))
                ==> final(self).layers@ == old(self).layers@,
            !old(self).layers@[0].index_of@.contains_key(state_hash_spec(old(self).root)) ==> (
            final(self).node_at(0, state_hash_spec(final(self).root)) matches Some(n) && n.children
                is None && n.eval == E::default_spec() && !n.expanding && n.bag == old(
                self,
            ).root.bag && n.reserve == old(self).root.reserve),
    {
        let h = state_hash(&self.root);
        let e = E::default_eval();
        let bag = self.root.bag;
        let reserve = self.root.reserve;
        let ghost pre = self.layers@;
        let _ = self.layers[0].get_or_insert_node(h, e, bag, reserve);
        proof {
            assert(self.layers@ == pre.update(0, self.layers@[0]));
            if pre[0].index_of@.contains_key(h) {
                assert(self.layers@[0] == pre[0]);
                assert(self.layers@ =~= pre);
            }
        }
    }

    /// The game played a placement: advance the root state by the first
    /// layer's piece, retire that layer, and file the new root in the next.
    pub fn advance(&mut self, mv: Placement)
        requires
            old(self).wf(),
            old(self).layers@[0].piece is Some,
            mv.location.coords_in_range(),
            mv.location.cells_in_bounds(),
        ensures
            final(self).wf(),
            final(self).root.board.cols@ == crate::data::cols_after(
                old(self).root.board.cols@,
                mv.location,
            ),
            final(self).layers@.len() == (if old(self).layers@.len() >= 2 {
                old(self).layers@.len() - 1
            } else {
                1int
            }),
            old(self).layers@.len() >= 2 ==> forall|i: int|
                1 <= i < final(self).layers@.len() ==> #[trigger] final(self).layers@[i] == old(
                    self,
                ).layers@[i + 1],
            old(self).layers@.len() >= 2 ==> final(self).layers@[0].piece == old(
                self,
            ).layers@[1].piece,
            old(self).layers@.len() < 2 ==> final(self).layers@[0].piece is None,
            final(self).node_at(0, state_hash_spec(final(self).root)) is Some,
            ({
                let next = old(self).layers@[0].piece->Some_0;
                &&& final(self).root.reserve == (if mv.location.piece != next {
                    next
                } else {
                    old(self).root.reserve
                })
                &&& (if (exists|q: Piece| q != next && old(self).root.bag.has(q)) {
                    forall|q: Piece|
                        #[trigger] final(self).root.bag.has(q) == (old(self).root.bag.has(q) && q
                            != next)
                } else {
                    forall|q: Piece| #[trigger] final(self).root.bag.has(q)
                })
            }),
            ({
                let mask = clear_mask(old(self).root.board.cols@, mv.location);
                &&& final(self).root.combo == (if mask != 0 {
                    old(self).root.combo.saturating_add(1)
                } else {
                    0u8
                })
                &&& final(self).root.back_to_back == (if mask != 0 {
                    popcount(mask) == 4 || mv.spin != Spin::NoSpin
                } else {
                    old(self).root.back_to_back
                })
            }),
    {
        let next = match self.layers[0].piece {
            Some(p) => p,
            None => {
                proof {
                    assert(false);
                }
                Piece::I
            },
        };
        let _ = self.root.advance(next, mv);
        let _ = self.layers.remove(0);
        if self.layers.len() == 0 {
            self.layers.push(Layer::speculated());
        }
        self.initialize_root();
    }

    /// A further piece of the queue became known: fix it in the first layer
    /// that was still speculated, keeping every handle and every kept child
    /// list; or append a fresh known layer when none was speculated.
    pub fn add_piece(&mut self, piece: Piece)
        requires
            old(self).wf(),
        ensures
            final(self).wf(),
            final(self).root == old(self).root,
            ({
                let k = Self::first_speculated_from(old(self).layers@, 0);
                if k < old(self).layers@.len() {
                    &&& final(self).layers@.len() == old(self).layers@.len()
                    &&& forall|j: int|
                        0 <= j < old(self).layers@.len() && j != k
                            ==> #[trigger] final(self).layers@[j] == old(self).layers@[j]
                    &&& final(self).layers@[k].piece == Some(piece)
                    &&& final(self).layers@[k].index_of@ == old(self).layers@[k].index_of@
                    &&& final(self).layers@[k].nodes@.len() == old(self).layers@[k].nodes@.len()
                    &&& forall|n: int|
                        0 <= n < old(self).layers@[k].nodes@.len() ==> {
                            let nn = #[trigger] final(self).layers@[k].nodes@[n];
                            let on = old(self).layers@[k].nodes@[n];
                            &&& nn.parents == on.parents
                            &&& nn.bag == on.bag
                            &&& nn.reserve == on.reserve
                            &&& (match (on.children, nn.children) {
                                (Some(c0), Some(c)) => {
                                    &&& list_of(c, piece) == list_of(c0, piece)
                                    &&& forall|p: Piece|
                                        p != piece ==> (#[trigger] list_of(c, p)).len() == 0
                                },
                                (None, None) => true,
                                _ => false,
                            })
                        }
                } else {
                    &&& final(self).layers@.len() == old(self).layers@.len() + 1
                    &&& forall|j: int|
                        0 <= j < old(self).layers@.len() ==> #[trigger] final(self).layers@[j]
                            == old(self).layers@[j]
                    &&& final(self).layers@[k].piece == Some(piece)
                }
            }),
    {
        let ghost pre = self.layers@;
        proof {
            assert(pre == old(self).layers@);
        }
        let mut i: usize = 0;
        while i < self.layers.len()
            invariant
                i <= self.layers@.len(),
                self.layers@ == pre,
                pre == old(self).layers@,
                old(self).wf(),
                self.root == old(self).root,
                forall|j: int| 0 <= j < i as int ==> (#[trigger] pre[j]).piece is Some,
            decreases self.layers@.len() - i,
        {
            let is_speculated = self.layers[i].piece.is_none();
            if is_speculated {
                proof {
                    lemma_first_speculated_is(pre, i as int);
                }
                let ghost before = self.layers@;
                self.layers[i].despeculate(piece);
                proof {
                    assert(self.layers@ == before.update(i as int, self.layers@[i as int]));
                }
                return ;
            }
            i = i + 1;
        }
        proof {
            lemma_first_speculated_none(pre);
        }
        self.layers.push(Layer::known(piece));
    }

    /// Walk down from the root: at each depth follow the known (or a
    /// randomly speculated) piece through a weighted-random child, until an
    /// unexpanded node is found; claim it for expansion. Fails when another
    /// claim is pending on the node met, when a needed child list is empty,
    /// or when speculation is disabled and the piece is unknown.
    pub fn select(&mut self, speculate: bool, exploration_permille: u32) -> (r: Option<Selection>)
        requires
            old(self).wf(),
            1 <= exploration_permille,
        ensures
            final(self).wf(),
            final(self).root == old(self).root,
            final(self).layers@.len() == old(self).layers@.len(),
            forall|i: int|
                0 <= i < old(self).layers@.len() ==> (#[trigger] final(self).layers@[i]).piece
                    == old(self).layers@[i].piece,
            r matches Some(sel) ==> sel.depth < final(self).layers@.len() && sel.game_state.wf()
                && sel.piece == final(self).layers@[sel.depth as int].piece,
            r matches Some(sel) ==> (final(self).node_at(
                sel.depth as int,
                state_hash_spec(sel.game_state),
            ) matches Some(n) && n.children is None && n.expanding),
            r matches Some(sel) ==> (old(self).node_at(
                sel.depth as int,
                state_hash_spec(sel.game_state),
            ) matches Some(n) && n.children is None && !n.expanding),
            (old(self).node_at(0, state_hash_spec(old(self).root)) matches Some(n) && n.children
                is None && !n.expanding) ==> (r matches Some(sel) && sel.depth == 0
                && sel.game_state == old(self).root),
            same_but_claims(*old(self), *final(self)),
            r matches Some(sel) ==> (exists|steps: Seq<(Piece, Placement)>|
                #[trigger] advance_chain(old(self).root, steps, sel.game_state)),
    {
        let ghost orig = *self;
        let ghost mut steps: Seq<(Piece, Placement)> = Seq::empty();
        let mut gs = self.root;
        let layer_count = self.layers.len();
        let mut depth: usize = 0;
        while depth <= usize::MAX
            invariant
                self.wf(),
                gs.wf(),
                depth <= self.layers@.len(),
                self.layers@.len() <= usize::MAX,
                orig == *old(self),
                *self == orig,
                depth == 0 ==> gs == orig.root,
                advance_chain(orig.root, steps, gs),
                depth >= 1 ==> !(orig.node_at(0, state_hash_spec(orig.root)) matches Some(n)
                    && n.children is None && !n.expanding),
                1 <= exploration_permille,
            decreases self.layers@.len() - depth,
        {
            if depth >= self.layers.len() {
                return None;
            }
            let h = state_hash(&gs);
            let layer_piece = self.layers[depth].piece;
            let node_idx = match self.layers[depth].lookup(h) {
                Some(i) => i,
                None => {
                    return None;
                },
            };
            let is_unexpanded = self.layers[depth].nodes[node_idx].children.is_none();
            if is_unexpanded {
                let already = self.layers[depth].nodes[node_idx].expanding;
                if already {
                    return None;
                }
                let ghost pre_layers = self.layers@;
                let ghost pre_nodes = self.layers@[depth as int].nodes@;
                let n = &mut self.layers[depth].nodes[node_idx];
                n.expanding = true;
                proof {
                    assert(self.layers@ == pre_layers.update(
                        depth as int,
                        self.layers@[depth as int],
                    ));
                    assert(self.layers@[depth as int].nodes@ == pre_nodes.update(
                        node_idx as int,
                        self.layers@[depth as int].nodes@[node_idx as int],
                    ));
                    assert forall|k: int|
                        0 <= k < self.layers@[depth as int].nodes@.len() implies node_wf(
                        #[trigger] self.layers@[depth as int].nodes@[k],
                        self.layers@[depth as int].piece,
                    ) by {
                        let nk = self.layers@[depth as int].nodes@[k];
                        if k == node_idx as int {
                            assert(nk.children == pre_nodes[k].children);
                            assert(nk.eval == pre_nodes[k].eval);
                            assert(nk.bag == pre_nodes[k].bag);
                            assert(nk.reserve == pre_nodes[k].reserve);
                            assert(node_wf(pre_nodes[k], self.layers@[depth as int].piece));
                        }
                    }
                }
                return Some(Selection { depth, game_state: gs, piece: layer_piece });
            }
            // The node has children: pick the next piece and follow a child.
            let next = match layer_piece {
                Some(p) => p,
                None => {
                    if !speculate {
                        return None;
                    }
                    let pieces = gs.bag.to_vec();
                    if pieces.len() == 0 {
                        // An empty bag offers nothing to speculate on.
                        return None;
                    }
                    let k = pick_index(pieces.len());
                    pieces[k]
                },
            };
            let chosen: Placement = {
                let layer = &self.layers[depth];
                let node = &layer.nodes[node_idx];
                match &node.children {
                    None => {
                        return None;
                    },
                    Some(lists) => {
                        let list = &lists.lists[next.index()];
                        if list.len() == 0 {
                            return None;
                        }
                        let k = exponential_index(list.len(), exploration_permille);
                        list[k].mv
                    },
                }
            };
            // Guard the transition: the stored placement must fit the state
            // this path reached, which hash aliasing cannot promise.
            if !(-126 <= chosen.location.x && chosen.location.x <= 125 && -126
                <= chosen.location.y && chosen.location.y <= 125) {
                return None;
            }
            if chosen.location.obstructed(&gs.board) {
                return None;
            }
            proof {
                crate::movegen::lemma_unobstructed_in_bounds(gs.board, chosen.location);
            }
            let ghost pre_gs = gs;
            let _ = gs.advance(next, chosen);
            proof {
                lemma_advance_chain_push(orig.root, steps, pre_gs, next, chosen, gs);
                steps = steps.push((next, chosen));
            }
            depth = depth + 1;
        }
        None
    }
}

/// If layer `i` is the first with an unknown piece, the search from the
/// start finds exactly it.
pub proof fn lemma_first_speculated_is<E: Evaluation>(layers: Seq<Layer<E>>, i: int)
    requires
        0 <= i < layers.len(),
        layers[i].piece is None,
        forall|j: int| 0 <= j < i ==> (#[trigger] layers[j]).piece is Some,
    ensures
        Dag::<E>::first_speculated_from(layers, 0) == i,
{
    lemma_first_speculated_step(layers, 0, i);
}

/// Helper induction for [`lemma_first_speculated_is`].
proof fn lemma_first_speculated_step<E: Evaluation>(layers: Seq<Layer<E>>, from: int, i: int)
    requires
        0 <= from <= i < layers.len(),
        layers[i].piece is None,
        forall|j: int| from <= j < i ==> (#[trigger] layers[j]).piece is Some,
    ensures
        Dag::<E>::first_speculated_from(layers, from) == i,
    decreases i - from,
{
    if from < i {
        lemma_first_speculated_step(layers, from + 1, i);
    }
}

/// With every layer known, the search reports the layer count.
pub proof fn lemma_first_speculated_none<E: Evaluation>(layers: Seq<Layer<E>>)
    requires
        forall|j: int| 0 <= j < layers.len() ==> (#[trigger] layers[j]).piece is Some,
    ensures
        Dag::<E>::first_speculated_from(layers, 0) == layers.len(),
{
    lemma_first_speculated_none_step(layers, 0);
}

/// Helper induction for [`lemma_first_speculated_none`].
proof fn lemma_first_speculated_none_step<E: Evaluation>(layers: Seq<Layer<E>>, from: int)
    requires
        0 <= from,
        forall|j: int| from <= j < layers.len() ==> (#[trigger] layers[j]).piece is Some,
    ensures
        Dag::<E>::first_speculated_from(layers, from) == layers.len(),
    decreases layers.len() - from,
{
    if from < layers.len() {
        lemma_first_speculated_none_step(layers, from + 1);
    }
}

impl<E: Evaluation> Dag<E> {
    /// Install the children of a claimed leaf: file each supplied child in
    /// the next layer (creating its node when the state is new), link it
    /// back to the leaf, sort each per-piece list best-first, set the leaf's
    /// evaluation by the recomputation rule, and propagate changed
    /// evaluations toward the root. On a known-piece layer only the piece's
    /// own children are taken.
    pub fn expand(&mut self, sel: Selection, children: &[Vec<ChildData<E>>; 7])
        requires
            old(self).wf(),
        ensures
            final(self).wf(),
            final(self).root == old(self).root,
            final(self).layers@.len() >= old(self).layers@.len(),
            forall|i: int|
                0 <= i < old(self).layers@.len() ==> (#[trigger] final(self).layers@[i]).piece
                    == old(self).layers@[i].piece,
            forall|i: int|
                old(self).layers@.len() <= i < final(self).layers@.len()
                    ==> (#[trigger] final(self).layers@[i]).piece is None,
            (old(self).node_at(sel.depth as int, state_hash_spec(sel.game_state)) matches Some(n)
                && n.children is None) ==> (forall|pi: int, k: int|
                0 <= pi < 7 && 0 <= k < children@[pi]@.len() && (match old(
                    self,
                ).layers@[sel.depth as int].piece {
                    Some(q) => pi == q.idx(),
                    None => true,
                }) ==> final(self).layers@[sel.depth as int + 1].index_of@.contains_key(
                    state_hash_spec((#[trigger] children@[pi]@[k]).resulting_state),
                )),
            (old(self).node_at(sel.depth as int, state_hash_spec(sel.game_state)) matches Some(n)
                && n.children is None) ==> (final(self).node_at(
                sel.depth as int,
                state_hash_spec(sel.game_state),
            ) matches Some(n2) && n2.children matches Some(c2) && (forall|p: Piece|
                (#[trigger] list_of(c2, p)).len() == (match old(
                    self,
                ).layers@[sel.depth as int].piece {
                    Some(q) => if p == q {
                        children@[p.idx()]@.len()
                    } else {
                        0
                    },
                    None => children@[p.idx()]@.len(),
                }))),
            (old(self).node_at(sel.depth as int, state_hash_spec(sel.game_state)) matches Some(n)
                && n.children is None) ==> (final(self).node_at(
                sel.depth as int,
                state_hash_spec(sel.game_state),
            ) matches Some(n2) && (n2.children matches Some(c2) && (forall|p: Piece, k: int|
                #![trigger list_of(c2, p)[k]]
                0 <= k < list_of(c2, p).len() ==> entry_from_batch(
                    *old(self),
                    sel.depth as int,
                    *children,
                    p,
                    list_of(c2, p)[k],
                )))),
    {
        let depth = sel.depth;
        if depth >= self.layers.len() {
            return ;
        }
        if self.layers.len() == depth + 1 {
            self.layers.push(Layer::speculated());
        }
        let layer_count = self.layers.len();
        proof {
            assert(depth + 1 < self.layers@.len());
            assert(self.layers@.len() == layer_count);
            assert(self.layers@[depth as int] == old(self).layers@[depth as int]);
        }
        let parent_hash = state_hash(&sel.game_state);
        let (parent_idx, bag, reserve) = {
            let layer = &self.layers[depth];
            match layer.lookup(parent_hash) {
                None => {
                    return ;
                },
                Some(i) => {
                    if layer.nodes[i].children.is_some() {
                        return ;
                    }
                    (i, layer.nodes[i].bag, layer.nodes[i].reserve)
                },
            }
        };
        let layer_piece = self.layers[depth].piece;
        let ghost mid = *self;
        proof {
            // The layer below, as this call found it: absent or fresh means
            // no state is filed there yet.
            assert(forall|h2: u64|
                #[trigger] mid.layers@[depth as int + 1].eval_of(h2) == old(self).eval_at(
                    depth as int + 1,
                    h2,
                ));
            assert(forall|h2: u64|
                #[trigger] mid.layers@[depth as int + 1].index_of@.contains_key(h2) == (old(
                    self,
                ).eval_at(depth as int + 1, h2) is Some));
        }
        // Create the child nodes and build the sorted per-piece lists.
        let mut lists = new_child_lists::<E>();
        let mut p_idx: usize = 0;
        while p_idx < 7
            invariant
                p_idx <= 7,
                self.wf(),
                self.layers@.len() <= usize::MAX,
                depth + 1 < self.layers@.len(),
                self.root == mid.root,
                self.layers@.len() == mid.layers@.len(),
                forall|i: int|
                    0 <= i < self.layers@.len() && i != depth + 1 ==> #[trigger] self.layers@[i]
                        == mid.layers@[i],
                self.layers@[depth as int + 1].piece == mid.layers@[depth as int + 1].piece,
                forall|p: Piece| sorted_desc(#[trigger] list_of(lists, p)),
                layer_piece matches Some(q) ==> forall|p: Piece|
                    p != q ==> (#[trigger] list_of(lists, p)).len() == 0,
                forall|p: Piece|
                    p.idx() >= p_idx as int ==> (#[trigger] list_of(lists, p)).len() == 0,
                forall|p: Piece|
                    p.idx() < p_idx as int ==> (#[trigger] list_of(lists, p)).len() == (
                    match layer_piece {
                        Some(q) => if p == q {
                            children@[p.idx()]@.len()
                        } else {
                            0
                        },
                        None => children@[p.idx()]@.len(),
                    }),
                forall|pi2: int, k2: int|
                    0 <= pi2 < p_idx as int && 0 <= k2 < children@[pi2]@.len() && (match layer_piece {
                        Some(q) => pi2 == q.idx(),
                        None => true,
                    }) ==> self.layers@[depth as int + 1].index_of@.contains_key(
                        state_hash_spec((#[trigger] children@[pi2]@[k2]).resulting_state),
                    ),
                forall|h2: u64|
                    #[trigger] mid.layers@[depth as int + 1].eval_of(h2) == old(self).eval_at(
                        depth as int + 1,
                        h2,
                    ),
                forall|h2: u64|
                    #[trigger] mid.layers@[depth as int + 1].index_of@.contains_key(h2) == (old(
                        self,
                    ).eval_at(depth as int + 1, h2) is Some),
                forall|h2: u64|
                    #[trigger] mid.layers@[depth as int + 1].index_of@.contains_key(h2)
                        ==> self.layers@[depth as int + 1].index_of@.contains_key(h2)
                        && self.layers@[depth as int + 1].eval_of(h2) == mid.layers@[depth as int
                        + 1].eval_of(h2),
                forall|h2: u64|
                    #[trigger] self.layers@[depth as int + 1].index_of@.contains_key(h2)
                        && !mid.layers@[depth as int + 1].index_of@.contains_key(h2) ==> (exists|
                        pi3: int,
                        k3: int,
                    |
                        #![trigger children@[pi3]@[k3]]
                        0 <= pi3 < 7 && 0 <= k3 < children@[pi3]@.len() && state_hash_spec(
                            children@[pi3]@[k3].resulting_state,
                        ) == h2 && self.layers@[depth as int + 1].eval_of(h2) == Some(
                            children@[pi3]@[k3].eval,
                        )),
                forall|p: Piece, k2: int|
                    #![trigger list_of(lists, p)[k2]]
                    0 <= k2 < list_of(lists, p).len() ==> entry_from_batch(
                        *old(self),
                        depth as int,
                        *children,
                        p,
                        list_of(lists, p)[k2],
                    ),
            decreases 7 - p_idx,
        {
            let p = Piece::from_index(p_idx);
            let taken = match layer_piece {
                Some(q) => p == q,
                None => true,
            };
            if taken {
                let mut list: Vec<Child<E>> = Vec::new();
                let mut k: usize = 0;
                while k < children[p_idx].len()
                    invariant
                        p_idx < 7,
                        k <= children@[p_idx as int]@.len(),
                        self.wf(),
                        self.layers@.len() <= usize::MAX,
                        depth + 1 < self.layers@.len(),
                        self.root == mid.root,
                        self.layers@.len() == mid.layers@.len(),
                        forall|i: int|
                            0 <= i < self.layers@.len() && i != depth + 1
                                ==> #[trigger] self.layers@[i] == mid.layers@[i],
                        self.layers@[depth as int + 1].piece == mid.layers@[depth as int
                            + 1].piece,
                        sorted_desc(list@),
                        list@.len() == k,
                        forall|pi2: int, k2: int|
                            0 <= pi2 < p_idx as int && 0 <= k2 < children@[pi2]@.len() && (
                            match layer_piece {
                                Some(q) => pi2 == q.idx(),
                                None => true,
                            }) ==> self.layers@[depth as int + 1].index_of@.contains_key(
                                state_hash_spec((#[trigger] children@[pi2]@[k2]).resulting_state),
                            ),
                        forall|k2: int|
                            0 <= k2 < k as int ==> self.layers@[depth as int
                                + 1].index_of@.contains_key(
                                state_hash_spec(
                                    (#[trigger] children@[p_idx as int]@[k2]).resulting_state,
                                ),
                            ),
                        forall|h2: u64|
                            #[trigger] mid.layers@[depth as int + 1].eval_of(h2) == old(
                                self,
                            ).eval_at(depth as int + 1, h2),
                        forall|h2: u64|
                            #[trigger] mid.layers@[depth as int + 1].index_of@.contains_key(h2)
                                == (old(self).eval_at(depth as int + 1, h2) is Some),
                        forall|h2: u64|
                            #[trigger] mid.layers@[depth as int + 1].index_of@.contains_key(h2)
                                ==> self.layers@[depth as int + 1].index_of@.contains_key(h2)
                                && self.layers@[depth as int + 1].eval_of(h2)
                                == mid.layers@[depth as int + 1].eval_of(h2),
                        forall|h2: u64|
                            #[trigger] self.layers@[depth as int + 1].index_of@.contains_key(h2)
                                && !mid.layers@[depth as int + 1].index_of@.contains_key(h2) ==> (
                            exists|pi3: int, k3: int|
                                #![trigger children@[pi3]@[k3]]
                                0 <= pi3 < 7 && 0 <= k3 < children@[pi3]@.len() && state_hash_spec(
                                    children@[pi3]@[k3].resulting_state,
                                ) == h2 && self.layers@[depth as int + 1].eval_of(h2) == Some(
                                    children@[pi3]@[k3].eval,
                                )),
                        p == Piece::of_idx(p_idx as int),
                        forall|k2: int|
                            #![trigger list@[k2]]
                            0 <= k2 < list@.len() ==> entry_from_batch(
                                *old(self),
                                depth as int,
                                *children,
                                p,
                                list@[k2],
                            ),
                    decreases children@[p_idx as int]@.len() - k,
                {
                    let st = children[p_idx][k].resulting_state;
                    let mv = children[p_idx][k].mv;
                    let ev = children[p_idx][k].eval;
                    let rw = children[p_idx][k].reward;
                    let h = state_hash(&st);
                    let ghost pre_layers = self.layers@;
                    let e = self.layers[depth + 1].create_node(
                        h,
                        ev,
                        st.bag,
                        st.reserve,
                        parent_hash,
                        mv,
                        p,
                    );
                    proof {
                        assert(self.layers@ == pre_layers.update(
                            depth as int + 1,
                            self.layers@[depth as int + 1],
                        ));
                    }
                    let cached = e.add(&rw);
                    let new_child = Child { mv, reward: rw, cached_eval: cached };
                    let ghost pre_list = list@;
                    let j = insert_sorted(&mut list, new_child);
                    proof {
                        let d = children@[p_idx as int]@[k as int];
                        assert(st == d.resulting_state && mv == d.mv && ev == d.eval && rw
                            == d.reward);
                        assert(entry_from_batch(
                            *old(self),
                            depth as int,
                            *children,
                            p,
                            new_child,
                        )) by {
                            assert(p.idx() == p_idx as int);
                            match old(self).eval_at(depth as int + 1, state_hash_spec(
                                d.resulting_state,
                            )) {
                                Some(e0) => {
                                    assert(mid.layers@[depth as int + 1].index_of@.contains_key(
                                        h,
                                    ));
                                    assert(mid.layers@[depth as int + 1].eval_of(h) == Some(e0));
                                    assert(pre_layers[depth as int + 1].index_of@.contains_key(h));
                                    assert(pre_layers[depth as int + 1].eval_of(h) == Some(e0));
                                    assert(e == e0);
                                },
                                None => {
                                    if pre_layers[depth as int + 1].index_of@.contains_key(h) {
                                        assert(!mid.layers@[depth as int
                                            + 1].index_of@.contains_key(h));
                                    } else {
                                        assert(state_hash_spec(
                                            children@[p_idx as int]@[k as int].resulting_state,
                                        ) == state_hash_spec(d.resulting_state));
                                    }
                                },
                            }
                        }
                        assert forall|k2: int|
                            #![trigger list@[k2]]
                            0 <= k2 < list@.len() implies entry_from_batch(
                            *old(self),
                            depth as int,
                            *children,
                            p,
                            list@[k2],
                        ) by {
                            let ji = j as int;
                            if k2 < ji {
                                assert(list@[k2] == pre_list[k2]);
                            } else if k2 == ji {
                                assert(list@[k2] == new_child);
                            } else {
                                assert(list@[k2] == pre_list[k2 - 1]);
                            }
                        }
                    }
                    k = k + 1;
                }
                let ghost init_lists = lists;
                lists.lists[p_idx] = list;
                proof {
                    assert(lists.lists@ == init_lists.lists@.update(p_idx as int, list));
                    assert forall|q2: Piece| sorted_desc(#[trigger] list_of(lists, q2)) by {
                        if q2.idx() != p_idx as int {
                            assert(list_of(lists, q2) == list_of(init_lists, q2));
                        } else {
                            assert(list_of(lists, q2) == list@);
                        }
                    }
                    if layer_piece is Some {
                        let q = layer_piece->Some_0;
                        assert(p == q);
                        assert forall|q2: Piece| q2 != q implies (#[trigger] list_of(
                            lists,
                            q2,
                        )).len() == 0 by {
                            assert(q2.idx() != p_idx as int);
                            assert(list_of(lists, q2) == list_of(init_lists, q2));
                        }
                    }
                    assert(list_of(lists, p) == list@);
                    assert forall|q2: Piece| q2 != p implies #[trigger] list_of(lists, q2)
                        == list_of(init_lists, q2) by {
                        assert(q2.idx() != p_idx as int);
                    }
                    assert forall|q2: Piece, k2: int|
                        #![trigger list_of(lists, q2)[k2]]
                        0 <= k2 < list_of(lists, q2).len() implies entry_from_batch(
                        *old(self),
                        depth as int,
                        *children,
                        q2,
                        list_of(lists, q2)[k2],
                    ) by {
                        if q2 == p {
                            assert(list_of(lists, q2)[k2] == list@[k2]);
                        } else {
                            assert(list_of(lists, q2) == list_of(init_lists, q2));
                        }
                    }
                }
            }
            proof {
                assert(Piece::of_idx(p_idx as int).idx() == p_idx as int);
            }
            p_idx = p_idx + 1;
        }
        // Write the leaf: children, evaluation, and the updates to its
        // parents.
        let e = recompute_eval(&lists, layer_piece, bag, reserve);
        let parent_links = clone_parents(&self.layers[depth].nodes[parent_idx].parents);
        let ghost glists = lists;
        let ghost pre_layers = self.layers@;
        let ghost pre_nodes = self.layers@[depth as int].nodes@;
        {
            let n = &mut self.layers[depth].nodes[parent_idx];
            n.children = Some(lists);
            n.eval = e;
        }
        proof {
            assert(self.layers@ == pre_layers.update(depth as int, self.layers@[depth as int]));
            assert(self.layers@[depth as int].nodes@ == pre_nodes.update(
                parent_idx as int,
                self.layers@[depth as int].nodes@[parent_idx as int],
            ));
            let nn = self.layers@[depth as int].nodes@[parent_idx as int];
            assert(nn.children == Some(glists));
            assert(nn.bag == bag && nn.reserve == reserve);
            assert(node_wf(nn, self.layers@[depth as int].piece));
            assert forall|k: int| 0 <= k < self.layers@[depth as int].nodes@.len() implies node_wf(
                #[trigger] self.layers@[depth as int].nodes@[k],
                self.layers@[depth as int].piece,
            ) by {
                if k != parent_idx as int {
                    assert(node_wf(pre_nodes[k], self.layers@[depth as int].piece));
                }
            }
            assert(self.layers@[depth as int].wf());
        }
        let ghost post_write = *self;
        proof {
            let h = state_hash_spec(sel.game_state);
            assert(post_write.layers@[depth as int].index_of@ == old(
                self,
            ).layers@[depth as int].index_of@);
            if old(self).node_at(depth as int, h) is Some {
                assert(post_write.node_at(depth as int, h) matches Some(n2) && n2.children
                    is Some);
            }
        }
        // Propagate the new evaluation toward the root.
        let mut updates: Vec<BackpropUpdate> = Vec::new();
        let mut k: usize = 0;
        while k < parent_links.len()
            invariant
                k <= parent_links@.len(),
            decreases parent_links@.len() - k,
        {
            let (gp, mv, sp) = parent_links[k];
            updates.push(
                BackpropUpdate { parent: gp, speculation_piece: sp, mv, child: parent_hash },
            );
            k = k + 1;
        }
        let ghost before_prop = *self;
        let mut d = depth;
        while d > 0 && updates.len() > 0
            invariant
                d <= depth,
                self.wf(),
                self.root == before_prop.root,
                self.layers@.len() == before_prop.layers@.len(),
                depth + 1 < self.layers@.len(),
                forall|i: int|
                    0 <= i < self.layers@.len() ==> (#[trigger] self.layers@[i]).piece
                        == before_prop.layers@[i].piece,
                self.layers@[depth as int] == before_prop.layers@[depth as int],
                self.layers@[depth as int + 1] == before_prop.layers@[depth as int + 1],
            decreases d,
        {
            d = d - 1;
            let ghost at_layer = *self;
            let mut next: Vec<BackpropUpdate> = Vec::new();
            let mut u: usize = 0;
            while u < updates.len()
                invariant
                    u <= updates@.len(),
                    self.wf(),
                    d + 1 < self.layers@.len(),
                    self.root == at_layer.root,
                    self.layers@.len() == at_layer.layers@.len(),
                    forall|i: int|
                        0 <= i < self.layers@.len() ==> (#[trigger] self.layers@[i]).piece
                            == at_layer.layers@[i].piece,
                    forall|i: int|
                        0 <= i < self.layers@.len() && i != d as int ==> #[trigger] self.layers@[i]
                            == at_layer.layers@[i],
                decreases updates@.len() - u,
            {
                let upd = updates[u];
                self.apply_update(d, upd, &mut next);
                u = u + 1;
            }
            updates = next;
        }
        proof {
            let h = state_hash_spec(sel.game_state);
            if old(self).node_at(depth as int, h) matches Some(n) && n.children is None {
                assert(self.node_at(depth as int, h) == post_write.node_at(depth as int, h));
            }
        }
    }

    /// Apply one pending update at layer `d`: when the layer's piece admits
    /// the update, the child is filed below and the parent is filed with
    /// children, the parent's list for the update's piece becomes
    /// [`update_child`]'s result fed with the child layer's current
    /// evaluation, and every other list is unchanged.
    fn apply_update(&mut self, d: usize, upd: BackpropUpdate, next: &mut Vec<BackpropUpdate>)
        requires
            old(self).wf(),
            d + 1 < old(self).layers@.len(),
        ensures
            final(self).wf(),
            final(self).root == old(self).root,
            final(self).layers@.len() == old(self).layers@.len(),
            forall|i: int|
                0 <= i < old(self).layers@.len() ==> (#[trigger] final(self).layers@[i]).piece
                    == old(self).layers@[i].piece,
            forall|i: int|
                0 <= i < old(self).layers@.len() && i != d as int
                    ==> #[trigger] final(self).layers@[i] == old(self).layers@[i],
            ({
                let allowed = match old(self).layers@[d as int].piece {
                    Some(q) => upd.speculation_piece == q,
                    None => true,
                };
                !allowed ==> final(self).layers@[d as int] == old(self).layers@[d as int]
            }),
            old(self).layers@[d as int + 1].eval_of(upd.child) is None
                ==> final(self).layers@[d as int] == old(self).layers@[d as int],
            old(self).node_at(d as int, upd.parent) is None ==> final(self).layers@[d as int]
                == old(self).layers@[d as int],
            (old(self).node_at(d as int, upd.parent) matches Some(n) && n.children is None)
                ==> final(self).layers@[d as int] == old(self).layers@[d as int],
            ({
                let sp = upd.speculation_piece;
                let allowed = match old(self).layers@[d as int].piece {
                    Some(q) => sp == q,
                    None => true,
                };
                allowed ==> (old(self).layers@[d as int + 1].eval_of(upd.child) matches Some(ce)
                    ==> (old(self).node_at(d as int, upd.parent) matches Some(n) ==> (n.children
                    matches Some(c) ==> (final(self).node_at(d as int, upd.parent) matches Some(n2)
                    && (n2.children matches Some(c2) && (forall|p: Piece|
                    p != sp ==> #[trigger] list_of(c2, p) == list_of(c, p)) && list_of(
                    c2,
                    sp,
                ).len() == list_of(c, sp).len() && ((forall|k: int|
                    0 <= k < list_of(c, sp).len() ==> (#[trigger] list_of(c, sp)[k]).mv != upd.mv)
                    ==> list_of(c2, sp) == list_of(c, sp)) && ((exists|k: int|
                    0 <= k < list_of(c, sp).len() && (#[trigger] list_of(c, sp)[k]).mv == upd.mv)
                    ==> (exists|i: int, j: int|
                    #![trigger refreshed_entry(list_of(c, sp), list_of(c2, sp), ce, i, j)]
                    refreshed_entry(list_of(c, sp), list_of(c2, sp), ce, i, j) && list_of(
                        c,
                        sp,
                    )[i].mv == upd.mv)))))))
            }),
    {
        let _layer_count = self.layers.len();
        let layer_piece = self.layers[d].piece;
        match layer_piece {
            Some(q) => {
                if !(upd.speculation_piece == q) {
                    return ;
                }
            },
            None => {},
        }
        let child_eval = match self.layers[d + 1].get_eval(upd.child) {
            None => {
                return ;
            },
            Some(e) => e,
        };
        let parent_idx = match self.layers[d].lookup(upd.parent) {
            None => {
                return ;
            },
            Some(i) => i,
        };
        let p_idx = upd.speculation_piece.index();
        let has_children = self.layers[d].nodes[parent_idx].children.is_some();
        if !has_children {
            return ;
        }
        let mut lst = match &self.layers[d].nodes[parent_idx].children {
            Some(c) => clone_children(&c.lists[p_idx]),
            None => Vec::new(),
        };
        let ghost pre_c = self.layers@[d as int].nodes@[parent_idx as int].children->Some_0;
        let ghost pre_list = lst@;
        proof {
            assert(pre_list == list_of(pre_c, upd.speculation_piece));
            assert(sorted_desc(pre_list));
        }
        let head_changed = update_child(&mut lst, upd.mv, child_eval);
        let ghost new_list = lst@;
        let bag = self.layers[d].nodes[parent_idx].bag;
        let reserve = self.layers[d].nodes[parent_idx].reserve;
        let old_eval = self.layers[d].nodes[parent_idx].eval;
        let ghost pre_layers = self.layers@;
        let ghost pre_nodes = self.layers@[d as int].nodes@;
        {
            let n = &mut self.layers[d].nodes[parent_idx];
            match &mut n.children {
                Some(lists2) => {
                    lists2.lists[p_idx] = lst;
                },
                None => {},
            }
        }
        proof {
            assert(self.layers@ == pre_layers.update(d as int, self.layers@[d as int]));
            assert(self.layers@[d as int].nodes@ == pre_nodes.update(
                parent_idx as int,
                self.layers@[d as int].nodes@[parent_idx as int],
            ));
        }
        let ghost new_c = self.layers@[d as int].nodes@[parent_idx as int].children->Some_0;
        proof {
            assert(new_c.lists@ == pre_c.lists@.update(p_idx as int, lst));
            assert(list_of(new_c, upd.speculation_piece) == new_list);
            assert forall|p: Piece| p != upd.speculation_piece implies #[trigger] list_of(
                new_c,
                p,
            ) == list_of(pre_c, p) by {
                assert(p.idx() != p_idx as int);
            }
        }
        if head_changed {
            let e2 = match &self.layers[d].nodes[parent_idx].children {
                Some(c) => recompute_eval(c, layer_piece, bag, reserve),
                None => old_eval,
            };
            let ghost pre_nodes2 = self.layers@[d as int].nodes@;
            {
                let n = &mut self.layers[d].nodes[parent_idx];
                n.eval = e2;
            }
            proof {
                assert(self.layers@ == pre_layers.update(d as int, self.layers@[d as int]));
                assert(self.layers@[d as int].nodes@ == pre_nodes2.update(
                    parent_idx as int,
                    self.layers@[d as int].nodes@[parent_idx as int],
                ));
                let nn = self.layers@[d as int].nodes@[parent_idx as int];
                assert(nn.children == Some(new_c));
                assert(nn.eval == recompute_rule(new_c, layer_piece, nn.bag, nn.reserve));
                lemma_wf_update_node::<E>(pre_nodes, self.layers@[d as int], parent_idx as int);
            }
            let changed = !(e2.le_exec(&old_eval) && old_eval.le_exec(&e2));
            if changed {
                let parent_links = clone_parents(&self.layers[d].nodes[parent_idx].parents);
                let mut k: usize = 0;
                while k < parent_links.len()
                    invariant
                        k <= parent_links@.len(),
                    decreases parent_links@.len() - k,
                {
                    let (gp, mv, sp) = parent_links[k];
                    next.push(
                        BackpropUpdate { parent: gp, speculation_piece: sp, mv, child: upd.parent },
                    );
                    k = k + 1;
                }
            }
        } else {
            proof {
                let nn = self.layers@[d as int].nodes@[parent_idx as int];
                assert(head_of(list_of(new_c, upd.speculation_piece)) == head_of(
                    list_of(pre_c, upd.speculation_piece),
                ));
                assert forall|p: Piece| head_of(#[trigger] list_of(new_c, p)) == head_of(
                    list_of(pre_c, p),
                ) by {
                    if p != upd.speculation_piece {
                        assert(list_of(new_c, p) == list_of(pre_c, p));
                    }
                }
                lemma_rule_same_heads(new_c, pre_c, layer_piece, nn.bag, nn.reserve);
                assert(nn.eval == recompute_rule(new_c, layer_piece, nn.bag, nn.reserve));
                lemma_wf_update_node::<E>(pre_nodes, self.layers@[d as int], parent_idx as int);
            }
        }
    }

    /// The best immediate placements from the root, best first: the head of
    /// each per-piece child list of the root node, for each piece the next
    /// draw may produce, ordered by cached evaluation. Empty when the root
    /// is not yet expanded.
    pub fn suggest(&self) -> (r: Vec<Placement>)
        requires
            self.wf(),
        ensures
            suggestion_ok(*self, r@),
    {
        let h = state_hash(&self.root);
        let layer = &self.layers[0];
        let ghost ps = possibilities(self.layers@[0].piece, self.root.bag);
        let idx = match layer.lookup(h) {
            None => {
                return Vec::new();
            },
            Some(i) => i,
        };
        let pieces: Vec<Piece> = match layer.piece {
            Some(p) => {
                let mut v: Vec<Piece> = Vec::new();
                v.push(p);
                proof {
                    assert(v@ =~= ps);
                }
                v
            },
            None => self.root.bag.to_vec(),
        };
        proof {
            assert(pieces@ == ps);
        }
        let ghost node = layer.nodes@[idx as int];
        let mut candidates: Vec<Child<E>> = Vec::new();
        let ghost mut wit: Seq<Piece> = Seq::empty();
        let mut k: usize = 0;
        while k < pieces.len()
            invariant
                k <= pieces@.len(),
                pieces@.len() <= 7,
                pieces@ == ps,
                candidates@.len() <= k,
                sorted_desc(candidates@),
                idx < layer.nodes@.len(),
                node == layer.nodes@[idx as int],
                node.children is None ==> candidates@.len() == 0,
                wit.len() == candidates@.len(),
                node.children is Some ==> (forall|j: int|
                    0 <= j < candidates@.len() ==> ps.contains(#[trigger] wit[j]) && list_of(
                        node.children->Some_0,
                        wit[j],
                    ).len() > 0 && candidates@[j] == list_of(node.children->Some_0, wit[j])[0]),
                node.children is Some ==> (forall|j: int|
                    0 <= j < k as int && list_of(
                        node.children->Some_0,
                        #[trigger] pieces@[j],
                    ).len() > 0 ==> (exists|idx2: int|
                        0 <= idx2 < candidates@.len() && #[trigger] candidates@[idx2] == list_of(
                            node.children->Some_0,
                            pieces@[j],
                        )[0])),
            decreases pieces@.len() - k,
        {
            let p = pieces[k];
            match &layer.nodes[idx].children {
                None => {},
                Some(c) => {
                    let list = &c.lists[p.index()];
                    proof {
                        assert(list@ == list_of(node.children->Some_0, p));
                    }
                    if list.len() > 0 {
                        let head = list[0];
                        let ghost pre = candidates@;
                        let ghost pre_wit = wit;
                        let j = insert_sorted(&mut candidates, head);
                        proof {
                            wit = pre_wit.insert(j as int, p);
                            let cc = node.children->Some_0;
                            assert(head == list_of(cc, p)[0]);
                            assert(ps.contains(p)) by {
                                assert(ps[k as int] == p);
                            }
                            assert forall|j2: int|
                                0 <= j2 < candidates@.len() implies ps.contains(
                                #[trigger] wit[j2],
                            ) && list_of(cc, wit[j2]).len() > 0 && candidates@[j2] == list_of(
                                cc,
                                wit[j2],
                            )[0] by {
                                let ji = j as int;
                                if j2 < ji {
                                    assert(candidates@[j2] == pre[j2]);
                                    assert(wit[j2] == pre_wit[j2]);
                                } else if j2 == ji {
                                    assert(candidates@[j2] == head);
                                    assert(wit[j2] == p);
                                } else {
                                    assert(candidates@[j2] == pre[j2 - 1]);
                                    assert(wit[j2] == pre_wit[j2 - 1]);
                                }
                            }
                            assert forall|j2: int|
                                0 <= j2 < k as int + 1 && list_of(cc, #[trigger] pieces@[j2]).len()
                                    > 0 implies (exists|idx2: int|
                                0 <= idx2 < candidates@.len() && #[trigger] candidates@[idx2]
                                    == list_of(cc, pieces@[j2])[0]) by {
                                let ji = j as int;
                                if j2 < k as int {
                                    let idx0 = choose|idx0: int|
                                        0 <= idx0 < pre.len() && pre[idx0] == list_of(
                                            cc,
                                            pieces@[j2],
                                        )[0];
                                    if idx0 < ji {
                                        assert(candidates@[idx0] == pre[idx0]);
                                    } else {
                                        assert(candidates@[idx0 + 1] == pre[idx0]);
                                    }
                                } else {
                                    assert(candidates@[ji] == head);
                                }
                            }
                        }
                    }
                },
            }
            k = k + 1;
        }
        let mut r: Vec<Placement> = Vec::new();
        let mut k2: usize = 0;
        while k2 < candidates.len()
            invariant
                k2 <= candidates@.len(),
                r@.len() == k2,
                candidates@.len() <= 7,
                forall|j: int| 0 <= j < k2 as int ==> #[trigger] r@[j] == candidates@[j].mv,
            decreases candidates@.len() - k2,
        {
            r.push(candidates[k2].mv);
            k2 = k2 + 1;
        }
        proof {
            match node.children {
                None => {},
                Some(c) => {
                    assert(suggestion_order(c, ps, r@, wit)) by {
                        assert forall|k3: int|
                            #![trigger wit[k3]]
                            0 <= k3 < r@.len() implies ps.contains(wit[k3]) && list_of(
                            c,
                            wit[k3],
                        ).len() > 0 && r@[k3] == list_of(c, wit[k3])[0].mv by {
                            assert(r@[k3] == candidates@[k3].mv);
                            assert(candidates@[k3] == list_of(c, wit[k3])[0]);
                        }
                        assert forall|k1: int, k2: int|
                            0 <= k1 <= k2 < r@.len() implies list_of(
                            c,
                            #[trigger] wit[k2],
                        )[0].cached_eval.le(list_of(c, #[trigger] wit[k1])[0].cached_eval) by {
                            assert(candidates@[k1] == list_of(c, wit[k1])[0]);
                            assert(candidates@[k2] == list_of(c, wit[k2])[0]);
                            assert(candidates@[k2].cached_eval.le(candidates@[k1].cached_eval));
                        }
                    }
                    assert forall|p: Piece|
                        #![trigger list_of(c, p)]
                        ps.contains(p) && list_of(c, p).len() > 0 implies (exists|k3: int|
                        0 <= k3 < r@.len() && #[trigger] r@[k3] == list_of(c, p)[0].mv) by {
                        let j = choose|j: int| 0 <= j < ps.len() && ps[j] == p;
                        assert(list_of(c, pieces@[j]).len() > 0);
                        let idx2 = choose|idx2: int|
                            0 <= idx2 < candidates@.len() && candidates@[idx2] == list_of(
                                c,
                                pieces@[j],
                            )[0];
                        assert(r@[idx2] == candidates@[idx2].mv);
                    }
                    if exists|p: Piece| #[trigger] ps.contains(p) && list_of(c, p).len() > 0 {
                        let p = choose|p: Piece| #[trigger] ps.contains(p) && list_of(
                            c,
                            p,
                        ).len() > 0;
                        let j = choose|j: int| 0 <= j < ps.len() && ps[j] == p;
                        assert(list_of(c, pieces@[j]).len() > 0);
                        let idx2 = choose|idx2: int|
                            0 <= idx2 < candidates@.len() && candidates@[idx2] == list_of(
                                c,
                                pieces@[j],
                            )[0];
                        assert(candidates@.len() > 0);
                    }
                },
            }
        }
        r
    }

    /// The evaluation of the node filed under handle `h` at depth `depth`,
    /// if the depth and handle exist.
    pub open spec fn eval_at(self, depth: int, h: u64) -> Option<E> {
        if 0 <= depth < self.layers@.len() {
            self.layers@[depth].eval_of(h)
        } else {
            None
        }
    }

    /// The node filed under handle `h` at depth `depth`, if any.
    pub open spec fn node_at(self, depth: int, h: u64) -> Option<Node<E>> {
        if 0 <= depth < self.layers@.len() && self.layers@[depth].index_of@.contains_key(h) {
            Some(self.layers@[depth].nodes@[self.layers@[depth].index_of@[h] as int])
        } else {
            None
        }
    }

    /// The child lists of the root node, when the root state is filed and
    /// the node is expanded.
    pub open spec fn root_children(self) -> Option<ChildLists<E>> {
        let h = state_hash_spec(self.root);
        if self.layers@[0].index_of@.contains_key(h) {
            self.layers@[0].nodes@[self.layers@[0].index_of@[h] as int].children
        } else {
            None
        }
    }
}

/// What a suggestion list holds: nothing when the root state is not filed or
/// its node is unexpanded; otherwise at most seven placements, each the head
/// placement of a non-empty child list for a piece the next draw may
/// produce, and at least one entry whenever such a non-empty list exists.
pub open spec fn suggestion_ok<E: Evaluation>(d: Dag<E>, r: Seq<Placement>) -> bool {
    &&& r.len() <= 7
    &&& match d.root_children() {
        None => r.len() == 0,
        Some(c) => {
            let ps = possibilities(d.layers@[0].piece, d.root.bag);
            &&& (exists|ws: Seq<Piece>| #[trigger] suggestion_order(c, ps, r, ws))
            &&& (forall|p: Piece|
                #![trigger list_of(c, p)]
                ps.contains(p) && list_of(c, p).len() > 0 ==> (exists|k: int|
                    0 <= k < r.len() && #[trigger] r[k] == list_of(c, p)[0].mv))
            &&& ((exists|p: Piece| #[trigger] ps.contains(p) && list_of(c, p).len() > 0) ==> r.len()
                > 0)
        },
    }
}

/// The order of a suggestion list, witnessed by the piece each entry speaks
/// for: every entry is the head placement of that piece's non-empty child
/// list, and the heads' cached evaluations never increase along the list.
pub open spec fn suggestion_order<E: Evaluation>(
    c: ChildLists<E>,
    ps: Seq<Piece>,
    r: Seq<Placement>,
    ws: Seq<Piece>,
) -> bool {
    &&& ws.len() == r.len()
    &&& (forall|k: int|
        #![trigger ws[k]]
        0 <= k < r.len() ==> ps.contains(ws[k]) && list_of(c, ws[k]).len() > 0 && r[k] == list_of(
            c,
            ws[k],
        )[0].mv)
    &&& (forall|k1: int, k2: int|
        0 <= k1 <= k2 < r.len() ==> list_of(c, #[trigger] ws[k2])[0].cached_eval.le(
            list_of(c, #[trigger] ws[k1])[0].cached_eval,
        ))
}

/// In a well-formed graph every node keeps each per-piece child list sorted
/// by cached evaluation, best first, and its evaluation equal to the
/// recomputation rule of its layer; on a known-piece layer the lists of
/// every other piece are empty. Each graph operation ensures the graph stays
/// well formed, so this holds between any two operations.
pub proof fn lemma_wf_node_invariants<E: Evaluation>(d: Dag<E>, l: int, n: int)
    requires
        d.wf(),
        0 <= l < d.layers@.len(),
        0 <= n < d.layers@[l].nodes@.len(),
    ensures
        node_wf(d.layers@[l].nodes@[n], d.layers@[l].piece),
        d.layers@[l].nodes@[n].children matches Some(c) ==> forall|p: Piece|
            sorted_desc(#[trigger] list_of(c, p)),
        d.layers@[l].nodes@[n].children matches Some(c) ==> d.layers@[l].nodes@[n].eval
            == recompute_rule(
            c,
            d.layers@[l].piece,
            d.layers@[l].nodes@[n].bag,
            d.layers@[l].nodes@[n].reserve,
        ),
{
}

/// A layer whose nodes changed only at slot `i`, where the node is well
/// formed, is well formed when its remaining nodes were.
proof fn lemma_wf_update_node<E: Evaluation>(pre: Seq<Node<E>>, l: Layer<E>, i: int)
    requires
        l.nodes@.len() == pre.len(),
        0 <= i < pre.len(),
        forall|k: int| 0 <= k < pre.len() && k != i ==> #[trigger] l.nodes@[k] == pre[k],
        forall|k: int| 0 <= k < pre.len() ==> node_wf(#[trigger] pre[k], l.piece),
        node_wf(l.nodes@[i], l.piece),
        forall|h: u64| l.index_of@.contains_key(h) ==> (#[trigger] l.index_of@[h]) < l.nodes@.len(),
    ensures
        l.wf(),
{
    assert forall|k: int| 0 <= k < l.nodes@.len() implies node_wf(
        #[trigger] l.nodes@[k],
        l.piece,
    ) by {
        if k != i {
            assert(l.nodes@[k] == pre[k]);
        }
    }
}

/// Copy the parent links of a node.
fn clone_parents(list: &Vec<(u64, Placement, Piece)>) -> (r: Vec<(u64, Placement, Piece)>)
    ensures
        r@ == list@,
{
    let mut r: Vec<(u64, Placement, Piece)> = Vec::new();
    let mut i: usize = 0;
    while i < list.len()
        invariant
            i <= list@.len(),
            r@ == list@.take(i as int),
        decreases list@.len() - i,
    {
        r.push(list[i]);
        proof {
            assert(list@.take(i as int + 1) =~= list@.take(i as int).push(list@[i as int]));
        }
        i = i + 1;
    }
    proof {
        assert(list@.take(list@.len() as int) =~= list@);
    }
    r
}

/// Copy a child list.
fn clone_children<E: Evaluation>(list: &Vec<Child<E>>) -> (r: Vec<Child<E>>)
    ensures
        r@ == list@,
{
    let mut r: Vec<Child<E>> = Vec::new();
    let mut i: usize = 0;
    while i < list.len()
        invariant
            i <= list@.len(),
            r@ == list@.take(i as int),
        decreases list@.len() - i,
    {
        r.push(list[i]);
        proof {
            assert(list@.take(i as int + 1) =~= list@.take(i as int).push(list@[i as int]));
        }
        i = i + 1;
    }
    proof {
        assert(list@.take(list@.len() as int) =~= list@);
    }
    r
}

} // verus!
