use vstd::prelude::*;
use indextree::Arena;
use rand::Rng;
use rand::seq::IteratorRandom;
use std::num::NonZeroUsize;
use crate::bits::lemma_ones_below_range;
use crate::board::{Board, Position};
use crate::color::Color;
use crate::mov::Move;

verus! {

/// What a node of the search tree holds: how often a search came through it, the sum of
/// what those searches ended with, the number that its selection goes by, and the move that
/// leads to it.
#[derive(Clone, Copy, Debug, PartialEq, Eq)]
pub struct NodeData {
    pub visits: u32,
    pub uct: i64,
    pub score: i32,
    pub mov: Move,
}

impl NodeData {
    /// A node for the move, not yet visited.
    pub fn new(mov: Move) -> (r: NodeData)
        ensures
            r == (NodeData { mov, visits: 0, score: 0, uct: 0 }),
    {
        NodeData { mov, visits: 0, score: 0, uct: 0 }
    }
}

/// A node of a tree as a plain value: its data, its parent (0 for none), its children in
/// order.
pub ghost struct Slot {
    pub data: NodeData,
    pub parent: int,
    pub children: Seq<int>,
}

/// `Arena` of indextree, the store of the nodes of a tree, taken as it is: what it holds is
/// known through `tree` and `slots` only.
#[verifier::external_type_specification]
#[verifier::external_body]
#[verifier::reject_recursive_types(T)]
pub struct ExArena<T>(Arena<T>);

/// The live nodes of an arena, each under its index, which counts from 1.
pub uninterp spec fn tree(arena: Arena<NodeData>) -> Map<int, Slot>;

/// The number of slots that an arena has made, whether their nodes are live or not.
pub uninterp spec fn slots(arena: Arena<NodeData>) -> nat;

/// `Arena::new` of indextree: an arena without a node.
#[verifier::external_body]
fn arena_new() -> (r: Arena<NodeData>)
    ensures
        tree(r).dom() == Set::<int>::empty(),
        slots(r) == 0,
{
    Arena::new()
}

/// `Arena::new_node` of indextree: a new live node with the data, without parent or child,
/// under an index that no live node had; the other nodes stay as they are. It uses a free
/// slot or makes one.
#[verifier::external_body]
fn new_node(arena: &mut Arena<NodeData>, data: NodeData) -> (r: usize)
    requires
        slots(*old(arena)) < usize::MAX,
    ensures
        r > 0,
        !tree(*old(arena)).dom().contains(r as int),
        tree(*final(arena)) == tree(*old(arena)).insert(
            r as int,
            (Slot { data, parent: 0, children: Seq::empty() }),
        ),
        slots(*old(arena)) <= slots(*final(arena)) <= slots(*old(arena)) + 1,
{
    usize::from(arena.new_node(data))
}

/// `NodeId::append` of indextree, for a child that has no parent and no child of its own:
/// the child becomes the last child of the parent; nothing else moves.
#[verifier::external_body]
fn append(arena: &mut Arena<NodeData>, parent: usize, child: usize)
    requires
        tree(*old(arena)).dom().contains(parent as int),
        tree(*old(arena)).dom().contains(child as int),
        parent != child,
        tree(*old(arena))[child as int].parent == 0,
        tree(*old(arena))[child as int].children.len() == 0,
    ensures
        tree(*final(arena)) == tree(*old(arena)).insert(
            parent as int,
            (Slot {
                children: tree(*old(arena))[parent as int].children.push(child as int),
                ..tree(*old(arena))[parent as int]
            }),
        ).insert(
            child as int,
            (Slot { parent: parent as int, ..tree(*old(arena))[child as int] }),
        ),
        slots(*final(arena)) == slots(*old(arena)),
{
    let parent_id = arena.get_node_id_at(NonZeroUsize::new(parent).unwrap()).unwrap();
    let child_id = arena.get_node_id_at(NonZeroUsize::new(child).unwrap()).unwrap();
    parent_id.append(child_id, arena);
}

/// `NodeId::children` of indextree: the children of a live node, first to last.
#[verifier::external_body]
fn children(arena: &Arena<NodeData>, node: usize) -> (r: Vec<usize>)
    requires
        tree(*arena).dom().contains(node as int),
    ensures
        r@.len() == tree(*arena)[node as int].children.len(),
        forall|k: int| 0 <= k < r@.len() ==> r@[k] as int == tree(*arena)[node as int].children[k],
{
    let id = arena.get_node_id_at(NonZeroUsize::new(node).unwrap()).unwrap();
    id.children(arena).map(usize::from).collect()
}

/// `NodeId::ancestors` of indextree: a live node, its parent, the parent of that, and so
/// on up to the node that has no parent.
#[verifier::external_body]
fn ancestors(arena: &Arena<NodeData>, node: usize) -> (r: Vec<usize>)
    requires
        tree(*arena).dom().contains(node as int),
    ensures
        r@.len() >= 1,
        r@[0] == node,
        forall|k: int| 0 <= k < r@.len() ==> tree(*arena).dom().contains(#[trigger] r@[k] as int),
        forall|k: int|
            0 <= k < r@.len() - 1 ==> (#[trigger] tree(*arena)[r@[k] as int]).parent == r@[k + 1],
        tree(*arena)[r@[r@.len() - 1] as int].parent == 0,
{
    let id = arena.get_node_id_at(NonZeroUsize::new(node).unwrap()).unwrap();
    id.ancestors(arena).map(usize::from).collect()
}

/// `Arena::get` and `Node::get` of indextree: the data of a live node.
#[verifier::external_body]
fn data(arena: &Arena<NodeData>, node: usize) -> (r: NodeData)
    requires
        tree(*arena).dom().contains(node as int),
    ensures
        r == tree(*arena)[node as int].data,
{
    let id = arena.get_node_id_at(NonZeroUsize::new(node).unwrap()).unwrap();
    *arena.get(id).unwrap().get()
}

/// `Arena::get_mut` and `Node::get_mut` of indextree: the live node gets the data; nothing
/// else moves.
#[verifier::external_body]
fn set_data(arena: &mut Arena<NodeData>, node: usize, data: NodeData)
    requires
        tree(*old(arena)).dom().contains(node as int),
    ensures
        tree(*final(arena)) == tree(*old(arena)).insert(
            node as int,
            (Slot { data, ..tree(*old(arena))[node as int] }),
        ),
        slots(*final(arena)) == slots(*old(arena)),
{
    let id = arena.get_node_id_at(NonZeroUsize::new(node).unwrap()).unwrap();
    *arena.get_mut(id).unwrap().get_mut() = data;
}

/// `choose` of rand's `IteratorRandom`, on the range of the indices below `n`: one of
/// them, or `None` where there is none.
#[verifier::external_body]
fn choose_index<R: Rng>(rng: &mut R, n: usize) -> (r: Option<usize>)
    ensures
        r is None <==> n == 0,
        r is Some ==> r->0 < n,
{
    (0..n).choose(rng)
}

/// Whether `k` is the place of the last of the greatest numbers of the list.
pub open spec fn is_last_max(keys: Seq<i64>, k: int) -> bool {
    &&& 0 <= k < keys.len()
    &&& forall|j: int| 0 <= j < keys.len() ==> keys[j] <= keys[k]
    &&& forall|j: int| k < j < keys.len() ==> keys[j] < keys[k]
}

/// The place of the last of the greatest numbers of the list, if it has one.
pub fn last_max(keys: &Vec<i64>) -> (r: Option<usize>)
    ensures
        r is None <==> keys.len() == 0,
        r is Some ==> is_last_max(keys@, r->0 as int),
{
    if keys.len() == 0 {
        return None;
    }
    let mut best: usize = 0;
    let mut k: usize = 1;
    while k < keys.len()
        invariant
            1 <= k <= keys.len(),
            is_last_max(keys@.take(k as int), best as int),
        decreases keys.len() - k,
    {
        if keys[k] >= keys[best] {
            best = k;
        }
        k += 1;
    }
    proof {
        assert(keys@.take(keys.len() as int) =~= keys@);
    }
    Some(best)
}

/// The position after the moves, played one after the other from the position `pos`.
pub open spec fn after_all(pos: Position, moves: Seq<Move>) -> Position
    decreases moves.len(),
{
    if moves.len() == 0 {
        pos
    } else {
        after_all(pos.after(moves[0]), moves.drop_first())
    }
}

/// Whether `n` legal moves, one after the other, lead from the position `a` to the
/// position `b`.
pub open spec fn leads(a: Position, b: Position, n: nat) -> bool {
    exists|line: Seq<Move>| #[trigger] line.len() == n && playable(a, line) && after_all(a, line) == b
}

/// Whether a game played on from the position `start` can end after `plies` moves in
/// the position `end`, where no move is legal, with `value` as the sign of the score for
/// the player to move in `start`.
pub open spec fn played_out(start: Position, end: Position, plies: nat, value: int) -> bool {
    &&& leads(start, end, plies)
    &&& forall|m: Move| !end.legal(m)
    &&& value == outcome(
        end.score(),
        if plies % 2 == 0 {
            1
        } else {
            -1
        },
    )
}

/// One more legal move at the end of a line of legal moves makes a line of legal moves,
/// which leads to the position after that move.
pub proof fn lemma_line_on(a: Position, line: Seq<Move>, m: Move)
    requires
        playable(a, line),
        after_all(a, line).legal(m),
    ensures
        playable(a, line.push(m)),
        after_all(a, line.push(m)) == after_all(a, line).after(m),
    decreases line.len(),
{
    let longer = line.push(m);
    if line.len() == 0 {
        assert(longer.drop_first() =~= Seq::<Move>::empty());
        assert(longer[0] == m);
        assert(playable(a.after(m), longer.drop_first()));
        assert(after_all(a.after(m), longer.drop_first()) == a.after(m));
    } else {
        assert(longer[0] == line[0]);
        assert(longer.drop_first() =~= line.drop_first().push(m));
        lemma_line_on(a.after(line[0]), line.drop_first(), m);
    }
}

/// One more legal move at the end of moves that lead to a position leads to the
/// position after it.
pub proof fn lemma_leads_on(a: Position, b: Position, n: nat, m: Move)
    requires
        leads(a, b, n),
        b.legal(m),
    ensures
        leads(a, b.after(m), n + 1),
{
    let line = choose|line: Seq<Move>| #[trigger] line.len() == n && playable(a, line) && after_all(a, line) == b;
    lemma_line_on(a, line, m);
    assert(line.push(m).len() == n + 1);
}

/// The sign of what a game ends with for the side that `side` stands for: the sign of the
/// score of the player to move, turned where `side` is negative.
pub open spec fn outcome(score: int, side: int) -> int {
    if score * side > 0 {
        1
    } else if score * side < 0 {
        -1
    } else {
        0
    }
}

/// Whether the moves can be played one after the other from the position.
pub open spec fn playable(pos: Position, moves: Seq<Move>) -> bool
    decreases moves.len(),
{
    moves.len() == 0 || (pos.legal(moves[0]) && playable(pos.after(moves[0]), moves.drop_first()))
}

/// Whether a child of the node has the move.
pub open spec fn explored(t: Map<int, Slot>, node: int, m: Move) -> bool {
    exists|k: int| 0 <= k < t[node].children.len() && t[#[trigger] t[node].children[k]].data.mov == m
}

/// The node `k` steps up from the node `n`: `n` itself, its parent, the parent of that.
pub open spec fn up(t: Map<int, Slot>, n: int, k: nat) -> int
    decreases k,
{
    if k == 0 {
        n
    } else {
        t[up(t, n, (k - 1) as nat)].parent
    }
}

/// What a search leaves at the node `k` steps up from the node that it ended at, on a way
/// of `steps` steps to the root: one more visit, the value of the search added to the sum,
/// with the sign turned at each step, and the number that `uct` gives for the new sum, the
/// new visits and the visits of the parent with this one.
pub open spec fn propagated<F: Fn(i32, u32, u32) -> i64>(
    uct: &F,
    before: Map<int, Slot>,
    after: Map<int, Slot>,
    node: int,
    k: int,
    steps: int,
    value: int,
) -> bool {
    let n = up(before, node, k as nat);
    let parent_visits = if k < steps {
        before[up(before, node, (k + 1) as nat)].data.visits + 1
    } else {
        0
    };
    &&& after[n].data.visits == before[n].data.visits + 1
    &&& after[n].data.score == before[n].data.score + if k % 2 == 0 {
        value
    } else {
        -value
    }
    &&& after[n].data.mov == before[n].data.mov
    &&& uct.ensures(
        (after[n].data.score, after[n].data.visits, parent_visits as u32),
        after[n].data.uct,
    )
}

/// Whether the node `c` is the child of the node `n` with the greatest number to select
/// by, the last of them where several are.
pub open spec fn best_by_uct(t: Map<int, Slot>, n: int, c: int) -> bool {
    exists|k: int|
        0 <= k < t[n].children.len() && #[trigger] t[n].children[k] == c && forall|j: int|
            0 <= j < t[n].children.len() ==> (if j <= k {
                t[t[n].children[j]].data.uct <= t[c].data.uct
            } else {
                t[t[n].children[j]].data.uct < t[c].data.uct
            })
}

/// Whether the node has a child for each legal move of its position.
pub open spec fn full(t: Map<int, Slot>, boards: Map<int, Board>, n: int) -> bool {
    t[n].children.len() == boards[n]@.legal_count()
}

/// Whether a selection comes to the node `n` with its step `k`: it starts at the root,
/// and goes on from a node that has a child for each legal move to the best of them.
pub open spec fn selects(
    t: Map<int, Slot>,
    boards: Map<int, Board>,
    root: int,
    n: int,
    k: nat,
) -> bool
    decreases k,
{
    if k == 0 {
        n == root
    } else {
        &&& t.dom().contains(t[n].parent)
        &&& selects(t, boards, root, t[n].parent, (k - 1) as nat)
        &&& full(t, boards, t[n].parent)
        &&& best_by_uct(t, t[n].parent, n)
    }
}

/// Whether a selection stops at the node: a legal move of its position has no child
/// yet, or none is legal.
pub open spec fn stops(t: Map<int, Slot>, boards: Map<int, Board>, n: int) -> bool {
    !full(t, boards, n) || t[n].children.len() == 0
}

/// What an expansion makes of the tree `t0` at the node `stop`: where a legal move of the
/// position has no child yet, the new last child `leaf` for such a move, not yet visited;
/// the same tree else, and then `leaf` is `stop`.
pub open spec fn grown(
    t0: Map<int, Slot>,
    boards: Map<int, Board>,
    t1: Map<int, Slot>,
    stop: int,
    leaf: int,
) -> bool {
    if exists|m: Move| boards[stop]@.legal(m) && !explored(t0, stop, m) {
        &&& !t0.dom().contains(leaf)
        &&& boards[stop]@.legal(t1[leaf].data.mov)
        &&& !explored(t0, stop, t1[leaf].data.mov)
        &&& t1 == t0.insert(
            stop,
            Slot { children: t0[stop].children.push(leaf), ..t0[stop] },
        ).insert(
            leaf,
            Slot {
                data: NodeData { mov: t1[leaf].data.mov, visits: 0, score: 0, uct: 0 },
                parent: stop,
                children: Seq::empty(),
            },
        )
    } else {
        leaf == stop && t1 == t0
    }
}

/// What the way up from the node `leaf` to the root, `steps` steps long, makes of the
/// tree `t1`: each node on the way is visited once more and takes `value` into its sum;
/// nothing else moves.
pub open spec fn climbed<F: Fn(i32, u32, u32) -> i64>(
    uct: &F,
    t1: Map<int, Slot>,
    t2: Map<int, Slot>,
    leaf: int,
    steps: int,
    value: int,
) -> bool {
    &&& t2.dom() == t1.dom()
    &&& forall|n: int|
        t1.dom().contains(n) ==> (#[trigger] t2[n]).parent == t1[n].parent && t2[n].children
            == t1[n].children && t2[n].data.mov == t1[n].data.mov
    &&& forall|k: int| 0 <= k <= steps ==> #[trigger] propagated(uct, t1, t2, leaf, k, steps, value)
    &&& forall|n: int|
        t1.dom().contains(n) && (forall|k: int| 0 <= k <= steps ==> #[trigger] up(t1, leaf, k as nat) != n)
            ==> (#[trigger] t2[n]).data == t1[n].data
}

/// The number of levels of the tree below a node, as far as `fuel` levels down.
pub open spec fn height(t: Map<int, Slot>, node: int, fuel: nat) -> nat
    decreases fuel, 0nat,
{
    if fuel == 0 {
        0
    } else {
        tallest(t, t[node].children, (fuel - 1) as nat)
    }
}

/// One more than the greatest height of the nodes of the list, or 0 where there is none.
pub open spec fn tallest(t: Map<int, Slot>, list: Seq<int>, fuel: nat) -> nat
    decreases fuel, list.len(),
{
    if list.len() == 0 {
        0
    } else {
        let rest = tallest(t, list.drop_last(), fuel);
        let last = 1 + height(t, list.last(), fuel);
        if rest >= last {
            rest
        } else {
            last
        }
    }
}

/// The position that a node stands for follows from that of its parent by the move of the
/// node, its children know it as their parent, and no two of them have the same move.
pub open spec fn node_ok(t: Map<int, Slot>, boards: Map<int, Board>, root: int, n: int) -> bool {
    &&& n > 0
    &&& boards.dom().contains(n)
    &&& boards[n].wf()
    &&& n != root ==> {
        &&& t[n].parent > 0
        &&& t.dom().contains(t[n].parent)
        &&& boards[t[n].parent]@.legal(t[n].data.mov)
        &&& boards[n].follows(boards[t[n].parent], t[n].data.mov)
    }
    &&& n == root ==> t[n].parent == 0
    &&& forall|k: int|
        0 <= k < t[n].children.len() ==> t.dom().contains(#[trigger] t[n].children[k])
            && t[t[n].children[k]].parent == n && t[n].children[k] != root
    &&& forall|j: int, k: int|
        0 <= j < k < t[n].children.len() ==> t[t[n].children[j]].data.mov
            != t[t[n].children[k]].data.mov
}

/// Every node of the tree is in order.
pub open spec fn shaped(t: Map<int, Slot>, boards: Map<int, Board>, root: int) -> bool {
    &&& t.dom().contains(root)
    &&& forall|n: int| t.dom().contains(n) ==> #[trigger] node_ok(t, boards, root, n)
}

/// No node was visited more than `limit` times, and the sum of each node is not beyond
/// its visits.
pub open spec fn counted(t: Map<int, Slot>, limit: int) -> bool {
    forall|n: int|
        t.dom().contains(n) ==> (#[trigger] t[n]).data.visits <= limit && -t[n].data.visits
            <= t[n].data.score <= t[n].data.visits
}

/// A search tree over a position: a tree of moves, grown one node with each search, with
/// the visits and sums that the searches left.
pub struct Solver {
    arena: Arena<NodeData>,
    root: usize,
    iterations: usize,
    board: Board,
    boards: Ghost<Map<int, Board>>,
}

impl Solver {
    /// The nodes of the tree.
    pub closed spec fn nodes(&self) -> Map<int, Slot> {
        tree(self.arena)
    }

    /// The root of the tree.
    pub closed spec fn root_node(&self) -> int {
        self.root as int
    }

    /// The number of searches made.
    pub closed spec fn searches(&self) -> int {
        self.iterations as int
    }

    /// The position at the root.
    pub closed spec fn position(&self) -> Board {
        self.board
    }

    /// The position at each node.
    pub closed spec fn positions(&self) -> Map<int, Board> {
        self.boards@
    }

    /// The tree is in order, but for the counts of visits.
    pub closed spec fn shape(&self) -> bool {
        &&& self.board.wf()
        &&& shaped(self.nodes(), self.boards@, self.root as int)
        &&& self.boards@[self.root as int] == self.board
    }

    /// The tree is in order: each node stands for the position that its moves lead to
    /// from the root, the root was visited once with each search, and no node more often.
    pub closed spec fn wf(&self) -> bool {
        &&& self.shape()
        &&& counted(self.nodes(), self.iterations as int)
        &&& self.nodes()[self.root as int].data.visits == self.iterations
        &&& slots(self.arena) <= self.iterations + 1
    }

    /// A tree with its root only, for the position `board`.
    pub fn new(board: Board) -> (r: Solver)
        requires
            board.wf(),
        ensures
            r.wf(),
            r.searches() == 0,
            r.position() == board,
            r.nodes().dom() == set![r.root_node()],
            r.nodes()[r.root_node()].children.len() == 0,
    {
        let mut arena = arena_new();
        let dumb_mov = Move::new(0, 0, Color::White);
        let root = new_node(&mut arena, NodeData::new(dumb_mov));
        let r = Solver {
            arena,
            root,
            iterations: 0,
            board,
            boards: Ghost(Map::<int, Board>::empty().insert(root as int, board)),
        };
        proof {
            assert(r.nodes().dom() =~= set![root as int]);
            assert(node_ok(r.nodes(), r.boards@, root as int, root as int));
        }
        r
    }

    /// The number of searches made.
    pub fn iterations(&self) -> (r: usize)
        ensures
            r == self.searches(),
    {
        self.iterations
    }

    /// The move of the most visited child of the root, the last of them where several
    /// are; `None` where the root has no child.
    pub fn current_best_move(&self) -> (r: Option<Move>)
        requires
            self.wf(),
        ensures
            r is None <==> self.nodes()[self.root_node()].children.len() == 0,
            r is Some ==> exists|c: int|
                self.most_visited(self.root_node(), c) && self.nodes()[c].data.mov == r->0,
            r is Some ==> self.position()@.legal(r->0),
    {
        match self.best_next_node(self.root) {
            Some(node_id) => {
                proof {
                    self.lemma_child(self.root as int, node_id as int);
                }
                Some(data(&self.arena, node_id).mov)
            },
            None => None,
        }
    }

    /// The moves from the root down, each to the most visited child, as far as there are
    /// children.
 #[verifier::rlimit(40)]
    pub fn current_best_continuation(&self) -> (r: Vec<Move>)
        requires
            self.wf(),
        ensures
            self.is_line(self.root_node(), r@),
            playable(self.position()@, r@),
    {
        let mut vec: Vec<Move> = Vec::with_capacity(25);
        let mut node_id = self.root;
        let ghost mut line: Seq<int> = Seq::empty();
        let mut next = self.best_next_node(node_id);
        while next.is_some()
            invariant
                self.wf(),
                self.nodes().dom().contains(node_id as int),
                next is None <==> self.nodes()[node_id as int].children.len() == 0,
                next is Some ==> self.most_visited(node_id as int, next->0 as int),
                next is Some ==> self.nodes().dom().contains(next->0 as int),
                forall|tail: Seq<Move>|
                    self.is_line(node_id as int, tail) ==> #[trigger] self.is_line(
                        self.root_node(),
                        vec@ + tail,
                    ),
                forall|tail: Seq<Move>|
                    playable(self.boards@[node_id as int]@, tail) ==> #[trigger] playable(
                        self.board@,
                        vec@ + tail,
                    ),
            decreases 64 - self.boards@[node_id as int].played_moves,
        {
            let child = next.unwrap();
            let mov = data(&self.arena, child).mov;
            let ghost before = vec@;
            let ghost parent = node_id as int;
            proof {
                self.lemma_child(parent, child as int);
                lemma_ones_below_range(self.boards@[child as int].pieces_mask, 64);
            }
            node_id = child;
            vec.push(mov);
            next = self.best_next_node(node_id);
            proof {
                assert forall|tail: Seq<Move>| self.is_line(node_id as int, tail) implies
                    #[trigger] self.is_line(
                    self.root_node(),
                    vec@ + tail,
                ) by {
                    let longer = seq![mov] + tail;
                    assert(longer[0] == mov);
                    assert(longer.drop_first() =~= tail);
                    assert(self.most_visited(parent, child as int));
                    assert(self.is_line(parent, longer));
                    assert(before + longer =~= vec@ + tail);
                }
                assert forall|tail: Seq<Move>| playable(self.boards@[node_id as int]@, tail) implies
                    #[trigger] playable(
                    self.board@,
                    vec@ + tail,
                ) by {
                    let longer = seq![mov] + tail;
                    assert(longer[0] == mov);
                    assert(longer.drop_first() =~= tail);
                    assert(self.boards@[child as int]@ == self.boards@[parent]@.after(mov));
                    assert(playable(self.boards@[parent]@, longer));
                    assert(before + longer =~= vec@ + tail);
                }
            }
        }
        proof {
            assert(self.is_line(node_id as int, Seq::<Move>::empty()));
            assert(playable(self.boards@[node_id as int]@, Seq::<Move>::empty()));
            assert(vec@ + Seq::<Move>::empty() =~= vec@);
        }
        vec
    }

    /// What the children of the root hold, first child first.
    pub fn root_children(&self) -> (r: Vec<NodeData>)
        requires
            self.wf(),
        ensures
            r@.len() == self.nodes()[self.root_node()].children.len(),
            forall|k: int|
                0 <= k < r@.len() ==> r@[k] == self.nodes()[self.nodes()[self.root_node()].children[k]].data,
    {
        let list = children(&self.arena, self.root);
        let mut out: Vec<NodeData> = Vec::new();
        let mut k: usize = 0;
        proof {
            assert(node_ok(self.nodes(), self.boards@, self.root as int, self.root as int));
        }
        while k < list.len()
            invariant
                k <= list.len(),
                out.len() == k,
                self.nodes().dom().contains(self.root as int),
                list@.len() == self.nodes()[self.root as int].children.len(),
                forall|j: int|
                    0 <= j < list@.len() ==> list@[j] as int == self.nodes()[self.root as int].children[j]
                        && self.nodes().dom().contains(list@[j] as int),
                forall|j: int| 0 <= j < k ==> out@[j] == self.nodes()[list@[j] as int].data,
            decreases list.len() - k,
        {
            out.push(data(&self.arena, list[k]));
            k += 1;
        }
        out
    }

    /// The number of levels of the tree below the root.
    pub fn tree_depth(&self) -> (r: usize)
        requires
            self.wf(),
        ensures
            r == height(
                self.nodes(),
                self.root_node(),
                (64 - self.position().played_moves) as nat,
            ),
    {
        proof {
            lemma_ones_below_range(self.board.pieces_mask, 64);
        }
        self.depth_below(self.root)
    }

    /// The number of levels of the tree below a node.
 #[verifier::rlimit(40)]
    fn depth_below(&self, node_id: usize) -> (r: usize)
        requires
            self.shape(),
            self.nodes().dom().contains(node_id as int),
            self.boards@[node_id as int].played_moves <= 64,
        ensures
            r == height(
                self.nodes(),
                node_id as int,
                (64 - self.boards@[node_id as int].played_moves) as nat,
            ),
            r <= 64 - self.boards@[node_id as int].played_moves,
        decreases 64 - self.boards@[node_id as int].played_moves,
    {
        let list = children(&self.arena, node_id);
        let ghost t = self.nodes();
        let ghost n = node_id as int;
        let ghost fuel = (64 - self.boards@[n].played_moves) as nat;
        let mut best: usize = 0;
        let mut k: usize = 0;
        proof {
            assert(t[n].children.take(0) =~= Seq::<int>::empty());
        }
        while k < list.len()
            invariant
                k <= list.len(),
                self.shape(),
                t == self.nodes(),
                n == node_id as int,
                t.dom().contains(n),
                fuel == 64 - self.boards@[n].played_moves,
                self.boards@[n].played_moves <= 64,
                list@.len() == t[n].children.len(),
                forall|j: int| 0 <= j < list@.len() ==> list@[j] as int == t[n].children[j],
                k > 0 ==> fuel > 0,
                fuel > 0 ==> best == tallest(t, t[n].children.take(k as int), (fuel - 1) as nat),
                fuel == 0 ==> best == 0,
                best <= fuel,
            decreases list.len() - k,
        {
            let child = list[k];
            proof {
                assert(t[n].children[k as int] == child);
                self.lemma_child(n, child as int);
                lemma_ones_below_range(self.boards@[child as int].pieces_mask, 64);
                assert(t[n].children.take(k + 1).drop_last() =~= t[n].children.take(k as int));
            }
            let below = self.depth_below(child) + 1;
            if below > best {
                best = below;
            }
            k += 1;
        }
        proof {
            assert(t[n].children.take(list@.len() as int) =~= t[n].children);
            if fuel == 0 {
                assert(list@.len() == 0);
            }
        }
        best
    }

    /// Whether `c` is the most visited child of `node`, the last of them where several
    /// are.
    pub open spec fn most_visited(&self, node: int, c: int) -> bool {
        exists|k: int|
            0 <= k < self.nodes()[node].children.len() && #[trigger] self.nodes()[node].children[k]
                == c && forall|j: int|
                0 <= j < self.nodes()[node].children.len() ==> (if j <= k {
                    self.nodes()[self.nodes()[node].children[j]].data.visits
                        <= self.nodes()[c].data.visits
                } else {
                    self.nodes()[self.nodes()[node].children[j]].data.visits
                        < self.nodes()[c].data.visits
                })
    }

    /// Whether `moves` are the moves from `node` down, each to the most visited child, as
    /// far as there are children.
    pub open spec fn is_line(&self, node: int, moves: Seq<Move>) -> bool
        decreases moves.len(),
    {
        if moves.len() == 0 {
            self.nodes()[node].children.len() == 0
        } else {
            exists|c: int|
                #[trigger] self.most_visited(node, c) && self.nodes()[c].data.mov == moves[0]
                    && self.is_line(c, moves.drop_first())
        }
    }

    /// A child of a node is a node, one move further.
    proof fn lemma_child(&self, node: int, c: int)
        requires
            self.shape(),
            self.nodes().dom().contains(node),
            exists|k: int|
                0 <= k < self.nodes()[node].children.len() && #[trigger] self.nodes()[node].children[k]
                    == c,
        ensures
            self.nodes().dom().contains(c),
            self.nodes()[c].parent == node,
            c != self.root_node(),
            self.boards@[c].wf(),
            self.boards@[node].wf(),
            self.boards@[node]@.legal(self.nodes()[c].data.mov),
            self.boards@[c].follows(self.boards@[node], self.nodes()[c].data.mov),
            self.boards@[c].played_moves == self.boards@[node].played_moves + 1,
    {
        let t = self.nodes();
        assert(node_ok(t, self.boards@, self.root as int, node));
        let k = choose|k: int| 0 <= k < t[node].children.len() && #[trigger] t[node].children[k] == c;
        assert(t.dom().contains(t[node].children[k]));
        assert(node_ok(t, self.boards@, self.root as int, c));
    }

    /// The most visited child of a node, the last of them where several are.
    fn best_next_node(&self, node_id: usize) -> (r: Option<usize>)
        requires
            self.shape(),
            self.nodes().dom().contains(node_id as int),
        ensures
            r is None <==> self.nodes()[node_id as int].children.len() == 0,
            r is Some ==> self.most_visited(node_id as int, r->0 as int),
            r is Some ==> self.nodes().dom().contains(r->0 as int),
    {
        let list = children(&self.arena, node_id);
        let mut keys: Vec<i64> = Vec::new();
        let mut k: usize = 0;
        proof {
            assert(node_ok(self.nodes(), self.boards@, self.root as int, node_id as int));
        }
        while k < list.len()
            invariant
                k <= list.len(),
                keys.len() == k,
                self.nodes().dom().contains(node_id as int),
                list@.len() == self.nodes()[node_id as int].children.len(),
                forall|j: int|
                    0 <= j < list@.len() ==> list@[j] as int == self.nodes()[node_id as int].children[j]
                        && self.nodes().dom().contains(list@[j] as int),
                forall|j: int|
                    0 <= j < k ==> keys@[j] == self.nodes()[list@[j] as int].data.visits,
            decreases list.len() - k,
        {
            keys.push(data(&self.arena, list[k]).visits as i64);
            k += 1;
        }
        match last_max(&keys) {
            Some(best) => {
                proof {
                    let t = self.nodes();
                    let n = node_id as int;
                    assert(t[n].children[best as int] == list@[best as int]);
                    assert forall|j: int| 0 <= j < t[n].children.len() implies (if j <= best {
                        t[t[n].children[j]].data.visits <= t[list@[best as int] as int].data.visits
                    } else {
                        t[t[n].children[j]].data.visits < t[list@[best as int] as int].data.visits
                    }) by {
                        assert(keys@[j] == t[list@[j] as int].data.visits);
                        assert(keys@[best as int] == t[list@[best as int] as int].data.visits);
                    }
                }
                Some(list[best])
            },
            None => None,
        }
    }

    /// The child of a node with the greatest number to select by, the last of them where
    /// several are.
    fn best_child_uct(&self, node_id: usize) -> (r: Option<usize>)
        requires
            self.shape(),
            self.nodes().dom().contains(node_id as int),
        ensures
            r is None <==> self.nodes()[node_id as int].children.len() == 0,
            r is Some ==> self.nodes().dom().contains(r->0 as int),
            r is Some ==> best_by_uct(self.nodes(), node_id as int, r->0 as int),
    {
        let list = children(&self.arena, node_id);
        let mut keys: Vec<i64> = Vec::new();
        let mut k: usize = 0;
        proof {
            assert(node_ok(self.nodes(), self.boards@, self.root as int, node_id as int));
        }
        while k < list.len()
            invariant
                k <= list.len(),
                keys.len() == k,
                self.nodes().dom().contains(node_id as int),
                list@.len() == self.nodes()[node_id as int].children.len(),
                forall|j: int|
                    0 <= j < list@.len() ==> list@[j] as int == self.nodes()[node_id as int].children[j]
                        && self.nodes().dom().contains(list@[j] as int),
                forall|j: int| 0 <= j < k ==> keys@[j] == self.nodes()[list@[j] as int].data.uct,
            decreases list.len() - k,
        {
            keys.push(data(&self.arena, list[k]).uct);
            k += 1;
        }
        match last_max(&keys) {
            Some(best) => {
                proof {
                    let t = self.nodes();
                    let n = node_id as int;
                    assert(t[n].children[best as int] == list@[best as int]);
                    assert forall|j: int| 0 <= j < t[n].children.len() implies (if j <= best {
                        t[t[n].children[j]].data.uct <= t[list@[best as int] as int].data.uct
                    } else {
                        t[t[n].children[j]].data.uct < t[list@[best as int] as int].data.uct
                    }) by {
                        assert(keys@[j] == t[list@[j] as int].data.uct);
                        assert(keys@[best as int] == t[list@[best as int] as int].data.uct);
                    }
                }
                Some(list[best])
            },
            None => None,
        }
    }

    /// Goes down from the root, each time to the child with the greatest number to select
    /// by, while the node has a child for each legal move of its position and has a child
    /// at all. Gives the node that it stops at, with its position.
 #[verifier::rlimit(40)]
    fn select(&self) -> (r: (Board, usize))
        requires
            self.shape(),
        ensures
            self.nodes().dom().contains(r.1 as int),
            r.0 == self.positions()[r.1 as int],
            r.0.wf(),
            self.nodes()[self.root_node()].children.len() == 0 ==> r.1 == self.root_node(),
            stops(self.nodes(), self.positions(), r.1 as int),
            selects(
                self.nodes(),
                self.positions(),
                self.root_node(),
                r.1 as int,
                (r.0.played_moves - self.position().played_moves) as nat,
            ),
            r.0.played_moves >= self.position().played_moves,
    {
        let mut board = self.board;
        let mut id = self.root;
        let mut done = false;
        proof {
            assert(node_ok(self.nodes(), self.boards@, self.root as int, self.root as int));
            lemma_ones_below_range(board.pieces_mask, 64);
        }
        while !done
            invariant
                self.shape(),
                self.nodes().dom().contains(id as int),
                board == self.boards@[id as int],
                board.wf(),
                board.played_moves <= 64,
                self.nodes()[self.root as int].children.len() == 0 ==> id == self.root,
                board.played_moves >= self.board.played_moves,
                selects(
                    self.nodes(),
                    self.boards@,
                    self.root as int,
                    id as int,
                    (board.played_moves - self.board.played_moves) as nat,
                ),
                done ==> stops(self.nodes(), self.boards@, id as int),
            decreases 64 - board.played_moves, (if done { 0int } else { 1int }),
        {
            let list = children(&self.arena, id);
            let moves = board.possible_moves();
            if list.len() != moves.len() {
                done = true;
            } else {
                match self.best_child_uct(id) {
                    None => {
                        done = true;
                    },
                    Some(node_id) => {
                        let mov = data(&self.arena, node_id).mov;
                        proof {
                            self.lemma_child(id as int, node_id as int);
                        }
                        match board.next(&mov) {
                            Some(child) => {
                                proof {
                                    crate::fen::lemma_board_of_position(
                                        child,
                                        self.boards@[node_id as int],
                                    );
                                    lemma_ones_below_range(child.pieces_mask, 64);
                                }
                                board = child;
                                id = node_id;
                            },
                            None => {
                                assert(false);
                                done = true;
                            },
                        }
                    },
                }
            }
        }
        (board, id)
    }

    /// Gives the node a new child for a legal move of its position that no child of it
    /// has yet, drawn at random, and the new child with its position; or the node itself
    /// where no such move is left.
 #[verifier::rlimit(40)]
    fn expand<R: Rng>(&mut self, board: Board, node_id: usize, rng: &mut R) -> (r: (Board, usize))
        requires
            old(self).shape(),
            old(self).nodes().dom().contains(node_id as int),
            board == old(self).positions()[node_id as int],
            slots(old(self).arena) <= old(self).searches(),
            old(self).searches() < 0x7FFF_FFFF,
        ensures
            final(self).shape(),
            slots(final(self).arena) <= final(self).searches() + 1,
            !old(self).nodes().dom().contains(r.1 as int) <==> exists|m: Move|
                board@.legal(m) && !explored(old(self).nodes(), node_id as int, m),
            forall|n: int|
                old(self).nodes().dom().contains(n) ==> old(self).nodes()[n].children.len()
                    <= (#[trigger] final(self).nodes()[n]).children.len(),
            !old(self).nodes().dom().contains(r.1 as int) ==> final(self).nodes()[node_id as int].children.len()
                > 0,
            grown(
                old(self).nodes(),
                old(self).positions(),
                final(self).nodes(),
                node_id as int,
                r.1 as int,
            ),
            forall|n: int|
                old(self).nodes().dom().contains(n) ==> #[trigger] final(self).positions()[n] == old(
                    self,
                ).positions()[n],
            final(self).searches() == old(self).searches(),
            final(self).position() == old(self).position(),
            final(self).root_node() == old(self).root_node(),
            final(self).nodes().dom().contains(r.1 as int),
            r.0 == final(self).positions()[r.1 as int],
            r.0.wf(),
            forall|n: int| old(self).nodes().dom().contains(n) ==> final(self).nodes().dom().contains(n)
                && final(self).nodes()[n].data == old(self).nodes()[n].data
                && final(self).nodes()[n].parent == old(self).nodes()[n].parent,
            forall|n: int|
                final(self).nodes().dom().contains(n) && !old(self).nodes().dom().contains(n) ==> n
                    == r.1 && final(self).nodes()[n].data == (NodeData {
                    mov: final(self).nodes()[n].data.mov,
                    visits: 0,
                    score: 0,
                    uct: 0,
                }) && final(self).nodes()[n].parent == node_id && old(self).positions()[node_id as int]@.legal(
                    final(self).nodes()[n].data.mov,
                ),
    {
        let ghost t0 = self.nodes();
        let ghost boards0 = self.boards@;
        let ghost root = self.root as int;
        proof {
            assert(node_ok(t0, boards0, root, node_id as int));
        }
        let list = children(&self.arena, node_id);
        let mut taken: Vec<Move> = Vec::new();
        let mut k: usize = 0;
        while k < list.len()
            invariant
                k <= list.len(),
                taken.len() == k,
                self.nodes() == t0,
                t0.dom().contains(node_id as int),
                list@.len() == t0[node_id as int].children.len(),
                forall|j: int|
                    0 <= j < list@.len() ==> list@[j] as int == t0[node_id as int].children[j]
                        && t0.dom().contains(list@[j] as int),
                forall|j: int| 0 <= j < k ==> taken@[j] == t0[list@[j] as int].data.mov,
            decreases list.len() - k,
        {
            taken.push(data(&self.arena, list[k]).mov);
            k += 1;
        }
        let moves = board.possible_moves();
        let mut open: Vec<Move> = Vec::new();
        let mut i: usize = 0;
        while i < moves.len()
            invariant
                i <= moves.len(),
                forall|j: int| 0 <= j < open.len() ==> moves@.contains(#[trigger] open@[j])
                    && !taken@.contains(open@[j]),
                forall|j: int| 0 <= j < i && !taken@.contains(#[trigger] moves@[j]) ==> open.len() > 0,
            decreases moves.len() - i,
        {
            let mov = moves[i];
            if !holds(&taken, &mov) {
                proof {
                    assert(moves@[i as int] == mov);
                }
                open.push(mov);
            }
            i += 1;
        }
        proof {
            let n = node_id as int;
            assert forall|m: Move| explored(t0, n, m) == taken@.contains(m) by {
                if explored(t0, n, m) {
                    let j = choose|j: int| 0 <= j < t0[n].children.len() && t0[#[trigger] t0[n].children[j]].data.mov == m;
                    assert(taken@[j] == m);
                }
                if taken@.contains(m) {
                    let j = choose|j: int| 0 <= j < taken@.len() && taken@[j] == m;
                    assert(t0[t0[n].children[j]].data.mov == m);
                }
            }
            if exists|m: Move| board@.legal(m) && !explored(t0, n, m) {
                let m = choose|m: Move| board@.legal(m) && !explored(t0, n, m);
                assert(moves@.contains(m));
                let j = choose|j: int| 0 <= j < moves@.len() && moves@[j] == m;
                assert(!taken@.contains(moves@[j]));
            }
            if open.len() > 0 {
                assert(moves@.contains(open@[0]) && !taken@.contains(open@[0]));
                assert(board@.legal(open@[0]) && !explored(t0, n, open@[0]));
            }
        }
        match choose_index(rng, open.len()) {
            None => (board, node_id),
            Some(pick) => {
                let mov = open[pick];
                assert(moves@.contains(open@[pick as int]));
                match board.next(&mov) {
                    None => {
                        assert(false);
                        (board, node_id)
                    },
                    Some(child) => {
                        let new_node_id = new_node(&mut self.arena, NodeData::new(mov));
                        let ghost t1 = tree(self.arena);
                        append(&mut self.arena, node_id, new_node_id);
                        proof {
                            let t2 = tree(self.arena);
                            let n = node_id as int;
                            let c = new_node_id as int;
                            self.boards = Ghost(boards0.insert(c, child));
                            let boards2 = self.boards@;
                            assert(t2.dom() =~= t0.dom().insert(c));
                            assert(board@.legal(mov) && !explored(t0, n, mov));
                            assert(t2 =~= t0.insert(
                                n,
                                Slot { children: t0[n].children.push(c), ..t0[n] },
                            ).insert(
                                c,
                                Slot {
                                    data: NodeData { mov, visits: 0, score: 0, uct: 0 },
                                    parent: n,
                                    children: Seq::empty(),
                                },
                            ));
                            assert(t2[c].data == (NodeData { mov, visits: 0, score: 0, uct: 0 }) && t2[c].parent == n
                                && t2[c].children.len() == 0);
                            assert(t2[n].children == t0[n].children.push(c));
                            assert forall|x: int| t0.dom().contains(x) && x != n implies t2[x]
                                == t0[x] by {}
                            assert(t2[n].data == t0[n].data && t2[n].parent == t0[n].parent);
                            assert forall|x: int| t2.dom().contains(x) implies #[trigger] node_ok(
                                t2,
                                boards2,
                                root,
                                x,
                            ) by {
                                if x == c {
                                    assert(node_ok(t2, boards2, root, c));
                                } else {
                                    assert(node_ok(t0, boards0, root, x));
                                    assert(t0[x].parent != c);
                                    if x == n {
                                        assert forall|k: int| 0 <= k < t2[n].children.len() implies
                                            t2.dom().contains(
                                            #[trigger] t2[n].children[k],
                                        ) && t2[t2[n].children[k]].parent == n && t2[n].children[k]
                                            != root by {
                                            if k < t0[n].children.len() {
                                                assert(t2[n].children[k] == t0[n].children[k]);
                                                assert(t0.dom().contains(t0[n].children[k]));
                                            }
                                        }
                                        assert forall|j: int, k: int|
                                            0 <= j < k < t2[n].children.len() implies t2[t2[n].children[j]].data.mov
                                            != t2[t2[n].children[k]].data.mov by {
                                            assert(t2[n].children[j] == t0[n].children[j]);
                                            assert(t0.dom().contains(t0[n].children[j]));
                                            if k < t0[n].children.len() {
                                                assert(t2[n].children[k] == t0[n].children[k]);
                                                assert(t0.dom().contains(t0[n].children[k]));
                                            } else {
                                                assert(taken@[j] == t0[list@[j] as int].data.mov);
                                                assert(taken@.contains(taken@[j]));
                                            }
                                        }
                                        assert(node_ok(t2, boards2, root, n));
                                    } else {
                                        assert forall|k: int| 0 <= k < t2[x].children.len() implies
                                            t2.dom().contains(
                                            #[trigger] t2[x].children[k],
                                        ) && t2[t2[x].children[k]].parent == x && t2[x].children[k]
                                            != root by {
                                            assert(t0.dom().contains(t0[x].children[k]));
                                        }
                                        assert forall|j: int, k: int|
                                            0 <= j < k < t2[x].children.len() implies t2[t2[x].children[j]].data.mov
                                            != t2[t2[x].children[k]].data.mov by {
                                            assert(t0.dom().contains(t0[x].children[j]));
                                            assert(t0.dom().contains(t0[x].children[k]));
                                        }
                                        assert(node_ok(t2, boards2, root, x));
                                    }
                                }
                            }
                        }
                        (child, new_node_id)
                    },
                }
            },
        }
    }

    /// Plays moves drawn at random from the position until none is legal, and gives the
    /// sign of what the game ends with for the player to move in `board`.
    fn simulate<R: Rng>(board: Board, rng: &mut R) -> (r: i32)
        requires
            board.wf(),
        ensures
            -1 <= r <= 1,
            exists|end: Position, plies: nat| #[trigger] played_out(board@, end, plies, r as int),
    {
        let (end, side) = rollout(board, rng);
        let r = playout_value(&end, side);
        proof {
            assert(played_out(
                board@,
                end@,
                (end.played_moves - board.played_moves) as nat,
                r as int,
            ));
        }
        r
    }

    /// One more visit for the node: `signed` goes into its sum, and `uct` gives its new
    /// number to select by. Nothing else moves.
    fn visit<F: Fn(i32, u32, u32) -> i64>(
        &mut self,
        id: usize,
        signed: i32,
        parent_visits: u32,
        uct: &F,
    )
        requires
            old(self).nodes().dom().contains(id as int),
            old(self).nodes()[id as int].data.visits < 0x7FFF_FFFF,
            -old(self).nodes()[id as int].data.visits <= old(self).nodes()[id as int].data.score
                <= old(self).nodes()[id as int].data.visits,
            -1 <= signed <= 1,
            forall|s: i32, v: u32, p: u32| uct.requires((s, v, p)),
        ensures
            final(self).nodes().dom() == old(self).nodes().dom(),
            forall|n: int| n != id ==> #[trigger] final(self).nodes()[n] == old(self).nodes()[n],
            final(self).nodes()[id as int].parent == old(self).nodes()[id as int].parent,
            final(self).nodes()[id as int].children == old(self).nodes()[id as int].children,
            final(self).nodes()[id as int].data.mov == old(self).nodes()[id as int].data.mov,
            final(self).nodes()[id as int].data.visits == old(self).nodes()[id as int].data.visits
                + 1,
            final(self).nodes()[id as int].data.score == old(self).nodes()[id as int].data.score
                + signed,
            uct.ensures(
                (
                    final(self).nodes()[id as int].data.score,
                    final(self).nodes()[id as int].data.visits,
                    parent_visits,
                ),
                final(self).nodes()[id as int].data.uct,
            ),
            final(self).positions() == old(self).positions(),
            final(self).root_node() == old(self).root_node(),
            final(self).searches() == old(self).searches(),
            final(self).position() == old(self).position(),
            slots(final(self).arena) == slots(old(self).arena),
    {
        let ghost t0 = self.nodes();
        let mut d = data(&self.arena, id);
        d.visits += 1;
        d.score += signed;
        d.uct = uct(d.score, d.visits, parent_visits);
        set_data(&mut self.arena, id, d);
        proof {
            assert(self.nodes().dom() =~= t0.dom());
        }
    }

    /// Goes up from the node to the root: each node on the way is visited once more, gets
    /// `value` added to its sum, with the sign turned at each step, and a new number to
    /// select by, from `uct`.
 #[verifier::rlimit(40)]
    fn backpropagate<F: Fn(i32, u32, u32) -> i64>(&mut self, node_id: usize, value: i32, uct: &F)
        requires
            old(self).shape(),
            slots(old(self).arena) <= old(self).searches() + 1,
            old(self).searches() >= 1,
            old(self).searches() < 0x7FFF_FFFF,
            counted(old(self).nodes(), old(self).searches() - 1),
            old(self).nodes()[old(self).root_node()].data.visits == old(self).searches() - 1,
            old(self).nodes().dom().contains(node_id as int),
            -1 <= value <= 1,
            forall|s: i32, v: u32, p: u32| uct.requires((s, v, p)),
        ensures
            final(self).wf(),
            final(self).searches() == old(self).searches(),
            final(self).position() == old(self).position(),
            final(self).root_node() == old(self).root_node(),
            final(self).positions() == old(self).positions(),
            old(self).positions()[node_id as int].played_moves >= old(self).position().played_moves,
            up(
                old(self).nodes(),
                node_id as int,
                (old(self).positions()[node_id as int].played_moves - old(
                    self,
                ).position().played_moves) as nat,
            ) == old(self).root_node(),
            climbed(
                uct,
                old(self).nodes(),
                final(self).nodes(),
                node_id as int,
                old(self).positions()[node_id as int].played_moves - old(
                    self,
                ).position().played_moves,
                value as int,
            ),
    {
        let ghost t0 = self.nodes();
        let ghost boards = self.boards@;
        let ghost root = self.root as int;
        let ghost node = node_id as int;
        let path = ancestors(&self.arena, node_id);
        let ghost steps = path@.len() - 1;
        let mut current_player: i32 = 1;
        let mut k: usize = 0;
        proof {
            lemma_way(t0, boards, root, path@, node);
            lemma_partly_start(uct, t0, path@, node, steps, value as int);
        }
        while k < path.len()
            invariant
                k <= path.len(),
                steps == path@.len() - 1,
                node == node_id,
                self.boards@ == boards,
                self.root == root,
                self.iterations == old(self).iterations,
                self.board == old(self).board,
                1 <= self.iterations < 0x7FFF_FFFF,
                slots(self.arena) == slots(old(self).arena),
                counted(t0, self.iterations - 1),
                -1 <= value <= 1,
                current_player == if k % 2 == 0 { 1int } else { -1int },
                forall|s: i32, v: u32, p: u32| uct.requires((s, v, p)),
                way(t0, path@, node),
                partly(uct, t0, self.nodes(), path@, node, k as int, steps, value as int),
            decreases path.len() - k,
        {
            let id = path[k];
            proof {
                lemma_unvisited(uct, t0, self.nodes(), path@, node, k as int, steps, value as int, k as int);
                if k + 1 < path.len() {
                    lemma_unvisited(
                        uct,
                        t0,
                        self.nodes(),
                        path@,
                        node,
                        k as int,
                        steps,
                        value as int,
                        k + 1,
                    );
                }
            }
            let parent_visits = if k + 1 < path.len() {
                data(&self.arena, path[k + 1]).visits + 1
            } else {
                0
            };
            let ghost before = self.nodes();
            assert(value * current_player == if k % 2 == 0 { value as int } else { -value }) by (nonlinear_arith)
                requires
                    current_player == if k % 2 == 0 { 1int } else { -1int },
            ;
            self.visit(id, value * current_player, parent_visits, uct);
            proof {
                lemma_climb_step(
                    uct,
                    t0,
                    before,
                    self.nodes(),
                    path@,
                    node,
                    k as int,
                    steps,
                    value as int,
                    parent_visits,
                );
            }
            current_player = -current_player;
            k += 1;
        }
        proof {
            let now = self.nodes();
            lemma_climbed(uct, t0, now, path@, node, steps, value as int);
            lemma_same_shape(t0, now, boards, root);
            lemma_counted_on(uct, t0, now, node, steps, value as int, self.iterations as int);
        }
    }

    /// What one search makes of the tree `before`: the selection stops at the node `stop`;
    /// the expansion there gives the tree `mid` and the node `leaf`; a game played on from
    /// the position of `leaf` ends with `value` for the player to move there; and the way up
    /// from `leaf` takes `value` into the nodes up to the root, which gives this tree.
    pub open spec fn searched<F: Fn(i32, u32, u32) -> i64>(
        &self,
        before: &Solver,
        uct: &F,
        stop: int,
        leaf: int,
        value: int,
        mid: Map<int, Slot>,
    ) -> bool {
        let depth = before.positions()[stop].played_moves - before.position().played_moves;
        &&& before.nodes().dom().contains(stop)
        &&& depth >= 0
        &&& selects(before.nodes(), before.positions(), before.root_node(), stop, depth as nat)
        &&& stops(before.nodes(), before.positions(), stop)
        &&& grown(before.nodes(), before.positions(), mid, stop, leaf)
        &&& -1 <= value <= 1
        &&& exists|end: Position, plies: nat| #[trigger]
            played_out(self.positions()[leaf]@, end, plies, value)
        &&& climbed(
            uct,
            mid,
            self.nodes(),
            leaf,
            if leaf == stop {
                depth
            } else {
                depth + 1
            },
            value,
        )
    }

    /// One search: it selects a node, gives it a new child, plays the game out from there
    /// at random, and takes what the game ended with up to the root.
 #[verifier::rlimit(40)]
    pub fn run_search_iteration<R: Rng, F: Fn(i32, u32, u32) -> i64>(
        &mut self,
        rng: &mut R,
        uct: &F,
    )
        requires
            old(self).wf(),
            old(self).searches() < 0x7FFF_FFFE,
            forall|s: i32, v: u32, p: u32| uct.requires((s, v, p)),
        ensures
            final(self).wf(),
            final(self).searches() == old(self).searches() + 1,
            final(self).position() == old(self).position(),
            final(self).root_node() == old(self).root_node(),
            forall|n: int| old(self).nodes().dom().contains(n) ==> final(self).nodes().dom().contains(n),
            final(self).nodes()[final(self).root_node()].data.visits == final(self).searches(),
            (exists|m: Move| old(self).position()@.legal(m)) ==> final(self).nodes()[old(self).root_node()].children.len()
                > 0,
            exists|stop: int, leaf: int, value: int, mid: Map<int, Slot>| #[trigger]
                final(self).searched(old(self), uct, stop, leaf, value, mid),
    {
        self.iterations += 1;
        let (model, node_id) = self.select();
        let ghost t0 = self.nodes();
        let ghost b0 = self.boards@;
        let ghost selected = model;
        proof {
            if t0[self.root as int].children.len() == 0 {
                if exists|m: Move| self.board@.legal(m) {
                    let m = choose|m: Move| self.board@.legal(m);
                    assert(model@.legal(m) && !explored(t0, node_id as int, m));
                }
            }
        }
        let (model, new_node_id) = self.expand(model, node_id, rng);
        proof {
            assert(t0[self.root as int].children.len() <= self.nodes()[self.root as int].children.len());
        }
        let val = Solver::simulate(model, rng);
        proof {
            let t1 = self.nodes();
            assert forall|n: int| t1.dom().contains(n) implies (#[trigger] t1[n]).data.visits
                <= self.iterations - 1 && -t1[n].data.visits <= t1[n].data.score
                <= t1[n].data.visits by {
                if t0.dom().contains(n) {
                    assert(t1[n].data == t0[n].data);
                    assert(t0[n].data.visits <= self.iterations - 1);
                }
            }
        }
        let ghost t1 = self.nodes();
        proof {
            assert(grown(t0, b0, t1, node_id as int, new_node_id as int));
            if new_node_id != node_id {
                assert(self.boards@[new_node_id as int].played_moves == selected.played_moves + 1) by {
                    assert(node_ok(t1, self.boards@, self.root as int, new_node_id as int));
                    assert(!t0.dom().contains(new_node_id as int));
                    assert(t1[new_node_id as int].parent == node_id);
                    assert(self.boards@[node_id as int] == b0[node_id as int]);
                }
            }
        }
        self.backpropagate(new_node_id, val, uct);
        proof {
            assert(self.searched(old(self), uct, node_id as int, new_node_id as int, val as int, t1));
        }
    }

    /// The move that `iterations` searches from `board` find best, if the position has a
    /// legal move and a search was made.
    pub fn best_move<R: Rng, F: Fn(i32, u32, u32) -> i64>(
        board: Board,
        iterations: u32,
        rng: &mut R,
        uct: &F,
    ) -> (r: Option<Move>)
        requires
            board.wf(),
            forall|s: i32, v: u32, p: u32| uct.requires((s, v, p)),
        ensures
            r is Some <==> iterations > 0 && exists|m: Move| board@.legal(m),
            r is Some ==> board@.legal(r->0),
    {
        let solver = Solver::solve(board, iterations, rng, uct);
        proof {
            solver.lemma_root_children();
        }
        solver.current_best_move()
    }

    /// The moves that `iterations` searches from `board` find best, one after the other.
    pub fn best_continuation<R: Rng, F: Fn(i32, u32, u32) -> i64>(
        board: Board,
        iterations: u32,
        rng: &mut R,
        uct: &F,
    ) -> (r: Vec<Move>)
        requires
            board.wf(),
            forall|s: i32, v: u32, p: u32| uct.requires((s, v, p)),
        ensures
            playable(board@, r@),
            r.len() > 0 <==> iterations > 0 && exists|m: Move| board@.legal(m),
    {
        let solver = Solver::solve(board, iterations, rng, uct);
        proof {
            solver.lemma_root_children();
        }
        solver.current_best_continuation()
    }

    /// The tree that `iterations` searches from `board` grow, or as many as a tree holds.
    pub fn solve<R: Rng, F: Fn(i32, u32, u32) -> i64>(
        board: Board,
        iterations: u32,
        rng: &mut R,
        uct: &F,
    ) -> (r: Solver)
        requires
            board.wf(),
            forall|s: i32, v: u32, p: u32| uct.requires((s, v, p)),
        ensures
            r.wf(),
            r.position() == board,
            r.searches() == if iterations < 0x7FFF_FFFE { iterations as int } else { 0x7FFF_FFFE },
            r.nodes()[r.root_node()].children.len() > 0 <==> iterations > 0 && exists|m: Move|
                board@.legal(m),
    {
        let mut solver = Solver::new(board);
        let mut n: u32 = 0;
        proof {
            solver.lemma_root_children();
        }
        while n < iterations && n < 0x7FFF_FFFE
            invariant
                solver.wf(),
                solver.position() == board,
                solver.searches() == n,
                n <= iterations,
                n <= 0x7FFF_FFFE,
                solver.nodes()[solver.root_node()].children.len() > 0 <==> n > 0 && exists|m: Move|
                    board@.legal(m),
                forall|s: i32, v: u32, p: u32| uct.requires((s, v, p)),
            decreases iterations - n,
        {
            solver.run_search_iteration(rng, uct);
            n += 1;
            proof {
                solver.lemma_root_children();
            }
        }
        solver
    }

    /// A child of the root stands for a legal move of the position at the root.
    pub proof fn lemma_root_children(&self)
        requires
            self.wf(),
        ensures
            self.nodes()[self.root_node()].children.len() > 0 ==> exists|m: Move|
                self.position()@.legal(m),
    {
        let t = self.nodes();
        let root = self.root as int;
        if t[root].children.len() > 0 {
            let c = t[root].children[0];
            self.lemma_child(root, c);
            assert(self.position()@.legal(t[c].data.mov));
        }
    }
}

/// Whether the list holds the move.
fn holds(list: &Vec<Move>, mov: &Move) -> (r: bool)
    ensures
        r == list@.contains(*mov),
{
    let mut k: usize = 0;
    while k < list.len()
        invariant
            k <= list.len(),
            forall|j: int| 0 <= j < k ==> list@[j] != *mov,
        decreases list.len() - k,
    {
        if list[k].mask == mov.mask && list[k].color == mov.color {
            return true;
        }
        k += 1;
    }
    false
}

/// Plays moves drawn at random from the position until none is legal. Gives the position
/// that the game ends in, where no move is legal, and 1 where the player to move at the end
/// is the one to move in `board`, -1 where it is the other.
pub fn rollout<R: Rng>(board: Board, rng: &mut R) -> (r: (Board, i8))
    requires
        board.wf(),
    ensures
        r.0.wf(),
        forall|m: Move| !r.0@.legal(m),
        r.0.played_moves >= board.played_moves,
        r.1 == if (r.0.played_moves - board.played_moves) % 2 == 0 { 1int } else { -1int },
        r.1 == 1 ==> r.0.current_player == board.current_player && r.0.opponent == board.opponent,
        r.1 == -1 ==> r.0.current_player == board.opponent && r.0.opponent == board.current_player,
        board.valid() ==> r.0.valid(),
        leads(board@, r.0@, (r.0.played_moves - board.played_moves) as nat),
{
    let mut current = board;
    let mut current_player: i8 = 1;
    let mut done = false;
    proof {
        lemma_ones_below_range(board.pieces_mask, 64);
        let line = Seq::<Move>::empty();
        assert(line.len() == 0 && playable(board@, line) && after_all(board@, line) == board@);
    }
    while !done
        invariant
            current.wf(),
            board.wf(),
            current.played_moves <= 64,
            current.played_moves >= board.played_moves,
            current_player == if (current.played_moves - board.played_moves) % 2 == 0 {
                1int
            } else {
                -1int
            },
            current_player == 1 ==> current.current_player == board.current_player
                && current.opponent == board.opponent,
            current_player == -1 ==> current.current_player == board.opponent && current.opponent
                == board.current_player,
            board.valid() ==> current.valid(),
            done ==> forall|m: Move| !current@.legal(m),
            leads(board@, current@, (current.played_moves - board.played_moves) as nat),
        decreases 64 - current.played_moves, (if done { 0int } else { 1int }),
    {
        let moves = current.possible_moves();
        match choose_index(rng, moves.len()) {
            None => {
                proof {
                    assert forall|m: Move| !current@.legal(m) by {
                        assert(!moves@.contains(m));
                    }
                }
                done = true;
            },
            Some(pick) => {
                let mov = moves[pick];
                assert(moves@.contains(moves@[pick as int]));
                match current.next(&mov) {
                    Some(after) => {
                        proof {
                            lemma_ones_below_range(after.pieces_mask, 64);
                            lemma_leads_on(
                                board@,
                                current@,
                                (current.played_moves - board.played_moves) as nat,
                                mov,
                            );
                        }
                        current_player = -current_player;
                        current = after;
                    },
                    None => {
                        done = true;
                    },
                }
            },
        }
    }
    (current, current_player)
}

/// The sign of what a game that ended in `end` is worth to the side that `side` stands
/// for.
pub fn playout_value(end: &Board, side: i8) -> (r: i32)
    requires
        end.wf(),
        side == 1 || side == -1,
    ensures
        r == outcome(end@.score(), side as int),
        -1 <= r <= 1,
{
    proof {
        crate::board::lemma_score_range(end@);
    }
    let score = end.current_score();
    let signed = score * side;
    if signed > 0 {
        1
    } else if signed < 0 {
        -1
    } else {
        0
    }
}

/// Whether the list is the way up from the node: the node, its parent, the parent of
/// that, no node twice.
#[verifier::opaque]
spec fn way(t: Map<int, Slot>, path: Seq<usize>, node: int) -> bool {
    &&& path.len() >= 1
    &&& path[0] == node
    &&& forall|j: int| 0 <= j < path.len() ==> t.dom().contains(#[trigger] path[j] as int)
    &&& forall|j: int| 0 <= j < path.len() ==> #[trigger] up(t, node, j as nat) == path[j]
    &&& forall|i: int, j: int| 0 <= i < j < path.len() ==> #[trigger] path[i] != #[trigger] path[j]
}

/// Whether the tree `now` is the tree `t0` with the first `k` nodes of the way up visited
/// once more.
#[verifier::opaque]
spec fn partly<F: Fn(i32, u32, u32) -> i64>(
    uct: &F,
    t0: Map<int, Slot>,
    now: Map<int, Slot>,
    path: Seq<usize>,
    node: int,
    k: int,
    steps: int,
    value: int,
) -> bool {
    &&& now.dom() == t0.dom()
    &&& forall|n: int|
        t0.dom().contains(n) ==> (#[trigger] now[n]).parent == t0[n].parent && now[n].children
            == t0[n].children && now[n].data.mov == t0[n].data.mov
    &&& forall|n: int|
        t0.dom().contains(n) && (forall|j: int| 0 <= j < k ==> #[trigger] path[j] != n)
            ==> (#[trigger] now[n]).data == t0[n].data
    &&& forall|j: int| 0 <= j < k ==> #[trigger] propagated(uct, t0, now, node, j, steps, value)
}

/// What `ancestors` gives in a tree that is in order is the way up to the root.
proof fn lemma_way(
    t: Map<int, Slot>,
    boards: Map<int, Board>,
    root: int,
    path: Seq<usize>,
    node: int,
)
    requires
        shaped(t, boards, root),
        path.len() >= 1,
        path[0] == node,
        forall|k: int| 0 <= k < path.len() ==> t.dom().contains(#[trigger] path[k] as int),
        forall|k: int| 0 <= k < path.len() - 1 ==> (#[trigger] t[path[k] as int]).parent == path[k + 1],
        t[path[path.len() - 1] as int].parent == 0,
    ensures
        way(t, path, node),
        path[path.len() - 1] == root,
        boards[node].played_moves - boards[root].played_moves == path.len() - 1,
        up(t, node, (path.len() - 1) as nat) == root,
{
    reveal(way);
    assert forall|j: int| 0 <= j < path.len() implies #[trigger] boards[path[j] as int].played_moves
        == boards[node].played_moves - j by {
        lemma_path(t, boards, root, path, j);
    }
    assert forall|j: int| 0 <= j < path.len() implies #[trigger] up(t, node, j as nat) == path[j] by {
        lemma_up(t, path, j);
    }
    assert(node_ok(t, boards, root, path[path.len() - 1] as int));
    assert forall|i: int, j: int| 0 <= i < j < path.len() implies #[trigger] path[i] != #[trigger] path[j] by {
        assert(boards[path[i] as int].played_moves == boards[node].played_moves - i);
        assert(boards[path[j] as int].played_moves == boards[node].played_moves - j);
    }
    assert(up(t, node, (path.len() - 1) as nat) == path[path.len() - 1]);
    assert(boards[path[path.len() - 1] as int].played_moves == boards[node].played_moves - (path.len()
        - 1));
}

/// Before the first step of the way up, the tree is as it was.
proof fn lemma_partly_start<F: Fn(i32, u32, u32) -> i64>(
    uct: &F,
    t0: Map<int, Slot>,
    path: Seq<usize>,
    node: int,
    steps: int,
    value: int,
)
    ensures
        partly(uct, t0, t0, path, node, 0, steps, value),
{
    reveal(partly);
}

/// A node further up the way than the steps made is as it was.
proof fn lemma_unvisited<F: Fn(i32, u32, u32) -> i64>(
    uct: &F,
    t0: Map<int, Slot>,
    now: Map<int, Slot>,
    path: Seq<usize>,
    node: int,
    k: int,
    steps: int,
    value: int,
    j: int,
)
    requires
        way(t0, path, node),
        partly(uct, t0, now, path, node, k, steps, value),
        0 <= k <= j < path.len(),
    ensures
        t0.dom().contains(path[j] as int),
        now.dom().contains(path[j] as int),
        now[path[j] as int].data == t0[path[j] as int].data,
{
    reveal(way);
    reveal(partly);
    let n = path[j] as int;
    assert(t0.dom().contains(path[j] as int));
    assert forall|i: int| 0 <= i < k implies #[trigger] path[i] != n by {
        assert(path[i] != path[j]);
    }
}

/// One more step of the way up.
#[verifier::rlimit(40)]
proof fn lemma_climb_step<F: Fn(i32, u32, u32) -> i64>(
    uct: &F,
    t0: Map<int, Slot>,
    before: Map<int, Slot>,
    now: Map<int, Slot>,
    path: Seq<usize>,
    node: int,
    k: int,
    steps: int,
    value: int,
    parent_visits: u32,
)
    requires
        way(t0, path, node),
        partly(uct, t0, before, path, node, k, steps, value),
        0 <= k < path.len(),
        steps == path.len() - 1,
        parent_visits == if k < steps {
            t0[path[k + 1] as int].data.visits + 1
        } else {
            0
        },
        now.dom() == before.dom(),
        forall|n: int| n != path[k] ==> #[trigger] now[n] == before[n],
        now[path[k] as int].parent == before[path[k] as int].parent,
        now[path[k] as int].children == before[path[k] as int].children,
        now[path[k] as int].data.mov == before[path[k] as int].data.mov,
        now[path[k] as int].data.visits == before[path[k] as int].data.visits + 1,
        now[path[k] as int].data.score == before[path[k] as int].data.score + if k % 2 == 0 {
            value
        } else {
            -value
        },
        uct.ensures(
            (now[path[k] as int].data.score, now[path[k] as int].data.visits, parent_visits),
            now[path[k] as int].data.uct,
        ),
    ensures
        partly(uct, t0, now, path, node, k + 1, steps, value),
{
    lemma_unvisited(uct, t0, before, path, node, k, steps, value, k);
    reveal(way);
    reveal(partly);
    let id = path[k] as int;
    assert(up(t0, node, k as nat) == path[k]);
    if k < steps {
        assert(up(t0, node, (k + 1) as nat) == path[k + 1]);
    }
    assert(before[id].data == t0[id].data);
    assert(now[id].data.visits == t0[id].data.visits + 1);
    assert(now[id].data.score == t0[id].data.score + if k % 2 == 0 {
        value
    } else {
        -value
    });
    assert(now[id].data.mov == t0[id].data.mov);
    assert(propagated(uct, t0, now, node, k, steps, value));
    assert forall|j: int| 0 <= j < k + 1 implies #[trigger] propagated(
        uct,
        t0,
        now,
        node,
        j,
        steps,
        value,
    ) by {
        if j < k {
            assert(propagated(uct, t0, before, node, j, steps, value));
            assert(up(t0, node, j as nat) == path[j]);
            assert(path[j] != path[k]);
            assert(now[path[j] as int] == before[path[j] as int]);
        }
    }
    assert forall|n: int|
        t0.dom().contains(n) && (forall|j: int| 0 <= j < k + 1 ==> #[trigger] path[j] != n) implies (#[trigger] now[n]).data
        == t0[n].data by {
        assert(path[k] != n);
        assert(forall|j: int| 0 <= j < k ==> #[trigger] path[j] != n);
        assert(now[n] == before[n]);
    }
    assert forall|n: int| t0.dom().contains(n) implies (#[trigger] now[n]).parent == t0[n].parent
        && now[n].children == t0[n].children && now[n].data.mov == t0[n].data.mov by {
        if n != id {
            assert(now[n] == before[n]);
        }
    }
}

/// After the last step, the tree is the tree that the way up makes.
proof fn lemma_climbed<F: Fn(i32, u32, u32) -> i64>(
    uct: &F,
    t0: Map<int, Slot>,
    now: Map<int, Slot>,
    path: Seq<usize>,
    node: int,
    steps: int,
    value: int,
)
    requires
        way(t0, path, node),
        steps == path.len() - 1,
        partly(uct, t0, now, path, node, path.len() as int, steps, value),
    ensures
        climbed(uct, t0, now, node, steps, value),
{
    reveal(way);
    reveal(partly);
    assert forall|n: int|
        t0.dom().contains(n) && (forall|k: int| 0 <= k <= steps ==> #[trigger] up(t0, node, k as nat) != n) implies (#[trigger] now[n]).data
        == t0[n].data by {
        assert forall|j: int| 0 <= j < path.len() implies #[trigger] path[j] != n by {
            assert(up(t0, node, j as nat) == path[j]);
        }
    }
}

/// A tree with the nodes, parents, children and moves of a tree in order is in order.
proof fn lemma_same_shape(t0: Map<int, Slot>, now: Map<int, Slot>, boards: Map<int, Board>, root: int)
    requires
        shaped(t0, boards, root),
        now.dom() == t0.dom(),
        forall|n: int|
            t0.dom().contains(n) ==> (#[trigger] now[n]).parent == t0[n].parent && now[n].children
                == t0[n].children && now[n].data.mov == t0[n].data.mov,
    ensures
        shaped(now, boards, root),
{
    assert forall|n: int| now.dom().contains(n) implies #[trigger] node_ok(now, boards, root, n) by {
        assert(node_ok(t0, boards, root, n));
        assert forall|j: int| 0 <= j < now[n].children.len() implies now.dom().contains(
            #[trigger] now[n].children[j],
        ) && now[now[n].children[j]].parent == n && now[n].children[j] != root by {
            assert(t0.dom().contains(t0[n].children[j]));
        }
        assert forall|i: int, j: int| 0 <= i < j < now[n].children.len() implies
            now[now[n].children[i]].data.mov != now[now[n].children[j]].data.mov by {
            assert(t0.dom().contains(t0[n].children[i]));
            assert(t0.dom().contains(t0[n].children[j]));
        }
    }
}

/// After a way up to the root, no node was visited more often than the searches made,
/// and the root as often.
proof fn lemma_counted_on<F: Fn(i32, u32, u32) -> i64>(
    uct: &F,
    t0: Map<int, Slot>,
    now: Map<int, Slot>,
    node: int,
    steps: int,
    value: int,
    limit: int,
)
    requires
        climbed(uct, t0, now, node, steps, value),
        counted(t0, limit - 1),
        -1 <= value <= 1,
        steps >= 0,
    ensures
        counted(now, limit),
        now[up(t0, node, steps as nat)].data.visits == t0[up(t0, node, steps as nat)].data.visits
            + 1,
{
    assert(propagated(uct, t0, now, node, steps, steps, value));
    assert forall|n: int| now.dom().contains(n) implies (#[trigger] now[n]).data.visits <= limit
        && -now[n].data.visits <= now[n].data.score <= now[n].data.visits by {
        assert(t0[n].data.visits <= limit - 1);
        if exists|k: int| 0 <= k <= steps && #[trigger] up(t0, node, k as nat) == n {
            let k = choose|k: int| 0 <= k <= steps && #[trigger] up(t0, node, k as nat) == n;
            assert(propagated(uct, t0, now, node, k, steps, value));
        } else {
            assert(now[n].data == t0[n].data);
        }
    }
}

/// A list in which each node is followed by its parent is the way up from its first node.
proof fn lemma_up(t: Map<int, Slot>, path: Seq<usize>, j: int)
    requires
        0 <= j < path.len(),
        forall|k: int| 0 <= k < path.len() - 1 ==> (#[trigger] t[path[k] as int]).parent == path[k + 1],
    ensures
        up(t, path[0] as int, j as nat) == path[j],
    decreases j,
{
    if j > 0 {
        lemma_up(t, path, j - 1);
        assert(t[path[j - 1] as int].parent == path[j]);
    }
}

/// The positions on the way up from a node have one piece less with each step.
proof fn lemma_path(t: Map<int, Slot>, boards: Map<int, Board>, root: int, path: Seq<usize>, j: int)
    requires
        shaped(t, boards, root),
        0 <= j < path.len(),
        forall|k: int| 0 <= k < path.len() ==> t.dom().contains(#[trigger] path[k] as int),
        forall|k: int| 0 <= k < path.len() - 1 ==> (#[trigger] t[path[k] as int]).parent == path[k + 1],
    ensures
        boards[path[j] as int].played_moves == boards[path[0] as int].played_moves - j,
    decreases j,
{
    if j > 0 {
        lemma_path(t, boards, root, path, j - 1);
        let n = path[j - 1] as int;
        assert(t.dom().contains(n));
        assert(node_ok(t, boards, root, n));
        assert(t[n].parent == path[j]);
        assert(t.dom().contains(path[j] as int));
        assert(node_ok(t, boards, root, path[j] as int));
    }
}

} // verus!
