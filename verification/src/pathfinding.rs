//! A* search for a path of tiles from the origin tile to a target tile, around tiles that
//! cost more to cross. The space around a computer player is cut into cubic tiles,
//! indexed by their offsets from the player's tile.
use vstd::prelude::*;
use priority_queue::PriorityQueue;
use std::collections::BTreeMap;
use std::collections::hash_map::RandomState;

verus! {

/// A tile, by its offsets along the three axes from the origin tile.
pub type TileIndex = (i32, i32, i32);

#[verifier::external_type_specification]
#[verifier::external_body]
#[verifier::reject_recursive_types(I)]
#[verifier::reject_recursive_types(P)]
#[verifier::reject_recursive_types(H)]
pub struct ExPriorityQueue<I: std::hash::Hash + Eq, P: Ord, H>(PriorityQueue<I, P, H>);

/// The queue of tiles still to visit, each with its priority.
pub type Frontier = PriorityQueue<TileIndex, u32, RandomState>;

/// The items of a frontier queue with their priorities; an item occurs at most once.
pub uninterp spec fn frontier_contents(q: Frontier) -> Map<TileIndex, u32>;

/// No tile at all.
pub open spec fn no_tiles() -> Map<TileIndex, u32> {
    Map::empty()
}

/// Calls `PriorityQueue::new`, which makes an empty queue.
#[verifier::external_body]
fn queue_new() -> (res: Frontier)
    ensures
        frontier_contents(res) == no_tiles(),
{
    PriorityQueue::new()
}

/// Calls `PriorityQueue::push`, which sets the priority of `item` (adding it if it is not
/// in the queue) and returns its old priority, if it had one.
#[verifier::external_body]
fn queue_push(q: &mut Frontier, item: TileIndex, priority: u32) -> (res:
    Option<u32>)
    ensures
        frontier_contents(*final(q)) == frontier_contents(*old(q)).insert(item, priority),
        res == (if frontier_contents(*old(q)).contains_key(item) {
            Some(frontier_contents(*old(q))[item])
        } else {
            None::<u32>
        }),
{
    q.push(item, priority)
}

/// Calls `PriorityQueue::pop`, which removes an item of the greatest priority and returns it
/// with its priority, or returns `None` if the queue is empty. Which of several items of
/// the greatest priority leaves is not stated.
#[verifier::external_body]
fn queue_pop(q: &mut Frontier) -> (res: Option<(TileIndex, u32)>)
    ensures
        match res {
            None => frontier_contents(*old(q)) == no_tiles() && frontier_contents(
                *final(q),
            ) == frontier_contents(*old(q)),
            Some((item, p)) => {
                &&& frontier_contents(*old(q)).contains_key(item)
                &&& frontier_contents(*old(q))[item] == p
                &&& forall|other: TileIndex| #[trigger]
                    frontier_contents(*old(q)).contains_key(other) ==> frontier_contents(
                        *old(q),
                    )[other] <= p
                &&& frontier_contents(*final(q)) == frontier_contents(*old(q)).remove(item)
            },
        },
{
    q.pop()
}

/// Calls `PriorityQueue::get_priority`, which returns the priority of `item` if it is in
/// the queue.
#[verifier::external_body]
fn queue_get_priority(q: &Frontier, item: &TileIndex) -> (res:
    Option<u32>)
    ensures
        res == (if frontier_contents(*q).contains_key(*item) {
            Some(frontier_contents(*q)[*item])
        } else {
            None::<u32>
        }),
{
    q.get_priority(item).copied()
}

/// Calls `PriorityQueue::remove`, which takes `item` out of the queue and returns it with
/// its priority, if it was there.
#[verifier::external_body]
fn queue_remove(q: &mut Frontier, item: &TileIndex) -> (res: Option<
    (TileIndex, u32),
>)
    ensures
        frontier_contents(*final(q)) == frontier_contents(*old(q)).remove(*item),
        res == (if frontier_contents(*old(q)).contains_key(*item) {
            Some((*item, frontier_contents(*old(q))[*item]))
        } else {
            None::<(TileIndex, u32)>
        }),
{
    q.remove(item)
}

/// The offset of the `k`-th neighbor of a tile: right, left, up, down, front, back.
pub open spec fn step_of(k: int) -> (int, int, int) {
    if k == 0 {
        (1, 0, 0)
    } else if k == 1 {
        (-1, 0, 0)
    } else if k == 2 {
        (0, 1, 0)
    } else if k == 3 {
        (0, -1, 0)
    } else if k == 4 {
        (0, 0, 1)
    } else {
        (0, 0, -1)
    }
}

/// The `k`-th neighbor of tile `t`.
pub open spec fn neighbor_of(t: TileIndex, k: int) -> TileIndex {
    ((t.0 + step_of(k).0) as i32, (t.1 + step_of(k).1) as i32, (t.2 + step_of(k).2) as i32)
}

/// The absolute value of `x`.
pub open spec fn abs(x: int) -> int {
    if x < 0 {
        -x
    } else {
        x
    }
}

/// Two tiles share a face.
pub open spec fn adjacent(a: TileIndex, b: TileIndex) -> bool {
    abs(a.0 - b.0) + abs(a.1 - b.1) + abs(a.2 - b.2) == 1
}

/// A tile none of whose neighbors lies past the edge of the `i32` offsets.
pub open spec fn inner(t: TileIndex) -> bool {
    &&& i32::MIN < t.0 < i32::MAX
    &&& i32::MIN < t.1 < i32::MAX
    &&& i32::MIN < t.2 < i32::MAX
}

/// The squared distance between two tiles, the search's estimate of the cost left.
pub open spec fn heuristic_of(pos: TileIndex, target: TileIndex) -> int {
    let dx = target.0 - pos.0;
    let dy = target.1 - pos.1;
    let dz = target.2 - pos.2;
    dx * dx + dy * dy + dz * dz
}

/// `x`, or the largest `u32` if `x` is larger.
pub open spec fn saturate(x: int) -> u32 {
    if x > u32::MAX {
        u32::MAX
    } else {
        x as u32
    }
}

/// The cost of reaching a neighbor: the cost so far plus the neighbor's tile cost plus
/// one, each addition saturating.
pub open spec fn step_cost(cost: u32, tile_cost: u32) -> u32 {
    saturate(saturate(cost + tile_cost) + 1)
}

/// The priority of a tile reached at `cost` with the estimate `h`: a lower total cost is a
/// higher priority.
pub open spec fn priority_of(cost: u32, h: int) -> u32 {
    (u32::MAX - saturate(cost + h)) as u32
}

/// A tile reached by the search, with the node it was reached from and the cost of
/// reaching it.
#[derive(Clone, Copy, Debug)]
pub struct PathNode {
    pub index: TileIndex,
    pub parent: Option<usize>,
    pub cost: u32,
}

/// A search in progress: the frontier of tiles to visit, every node created so far, the
/// node each frontier tile stands for, the node being visited, and the target tile.
pub struct PathSearch {
    frontier: Frontier,
    nodes: Vec<PathNode>,
    latest: BTreeMap<TileIndex, usize>,
    cur: usize,
    target: TileIndex,
}

/// A search as values.
pub ghost struct SearchView {
    pub frontier: Map<TileIndex, u32>,
    pub nodes: Seq<PathNode>,
    pub latest: Map<TileIndex, usize>,
    pub cur: int,
    pub target: TileIndex,
}

impl View for PathSearch {
    type V = SearchView;

    closed spec fn view(&self) -> SearchView {
        SearchView {
            frontier: frontier_contents(self.frontier),
            nodes: self.nodes@,
            latest: self.latest@,
            cur: self.cur as int,
            target: self.target,
        }
    }
}

/// The search's invariant: the first node is the origin tile, reached at no cost; every
/// other node was reached from an earlier node on an adjacent tile; the visited node
/// exists; and every frontier tile stands for a node on that tile.
pub open spec fn search_wf(s: SearchView) -> bool {
    &&& s.nodes.len() > 0
    &&& s.nodes[0].index == (0i32, 0i32, 0i32)
    &&& s.nodes[0].parent is None
    &&& s.nodes[0].cost == 0
    &&& chained(s.nodes)
    &&& 0 <= s.cur < s.nodes.len()
    &&& tracked_by(s.frontier, s.latest, s.nodes)
}

/// Every node but the first was reached from an earlier node on an adjacent tile.
pub open spec fn chained(nodes: Seq<PathNode>) -> bool {
    forall|k: int|
        0 < k < nodes.len() ==> ((#[trigger] nodes[k]).parent matches Some(p) && p < k
            && adjacent(nodes[p as int].index, nodes[k].index))
}

/// Every frontier tile stands for a node on that tile.
pub open spec fn tracked_by(
    frontier: Map<TileIndex, u32>,
    latest: Map<TileIndex, usize>,
    nodes: Seq<PathNode>,
) -> bool {
    forall|t: TileIndex|
        #[trigger] frontier.contains_key(t) ==> latest.contains_key(t) && (latest[t] as int)
            < nodes.len() && nodes[latest[t] as int].index == t
}

/// The search after looking at the `k`-th neighbor of the visited tile, of tile cost
/// `tile_cost`: a node for it is created; unless the frontier already holds the neighbor
/// at a higher priority, the neighbor enters the frontier (or has its priority changed)
/// standing for the new node.
pub open spec fn relax(s: SearchView, k: int, tile_cost: u32) -> SearchView {
    let from = s.nodes[s.cur];
    let n = neighbor_of(from.index, k);
    let cost = step_cost(from.cost, tile_cost);
    let p = priority_of(cost, heuristic_of(n, s.target));
    let nodes = s.nodes.push(PathNode { index: n, parent: Some(s.cur as usize), cost });
    if s.frontier.contains_key(n) && p < s.frontier[n] {
        SearchView { nodes, ..s }
    } else {
        SearchView {
            nodes,
            frontier: s.frontier.insert(n, p),
            latest: s.latest.insert(n, s.nodes.len() as usize),
            ..s
        }
    }
}

/// The search after looking at the first `k` neighbors of the visited tile, in order.
pub open spec fn relax_first(s: SearchView, costs: Seq<u32>, k: int) -> SearchView
    decreases k,
{
    if k <= 0 {
        s
    } else {
        relax(relax_first(s, costs, k - 1), k - 1, costs[k - 1])
    }
}

/// The tiles from the one after the origin up to node `k`, found by following the nodes'
/// parents back to the origin.
pub open spec fn path_to(nodes: Seq<PathNode>, k: int) -> Seq<TileIndex>
    decreases k,
{
    if k <= 0 || k >= nodes.len() {
        Seq::empty()
    } else {
        match nodes[k].parent {
            Some(p) => if (p as int) < k {
                path_to(nodes, p as int).push(nodes[k].index)
            } else {
                Seq::empty()
            },
            None => Seq::empty(),
        }
    }
}

/// What the search does next.
#[derive(Clone, Copy, Debug, PartialEq, Eq)]
pub enum SearchStep {
    /// Visit this tile: look at its six neighbors.
    Expand(TileIndex),
    /// The search is over: the target was reached or the frontier is empty.
    Done,
}

/// The search can look at the neighbors of its visited tile: they lie within the `i32`
/// offsets and their squared distances to the target fit an `i32`.
pub open spec fn expandable(s: SearchView) -> bool {
    &&& inner(s.nodes[s.cur].index)
    &&& forall|k: int| 0 <= k < 6 ==> heuristic_of(neighbor_of(s.nodes[s.cur].index, k), s.target) <= i32::MAX
}

/// Whether two tiles are the same.
fn same_tile(a: TileIndex, b: TileIndex) -> (res: bool)
    ensures
        res == (a == b),
{
    a.0 == b.0 && a.1 == b.1 && a.2 == b.2
}

/// The `k`-th neighbor of `t`.
fn neighbor(t: TileIndex, k: usize) -> (res: TileIndex)
    requires
        inner(t),
        k < 6,
    ensures
        res == neighbor_of(t, k as int),
{
    if k == 0 {
        (t.0 + 1, t.1, t.2)
    } else if k == 1 {
        (t.0 - 1, t.1, t.2)
    } else if k == 2 {
        (t.0, t.1 + 1, t.2)
    } else if k == 3 {
        (t.0, t.1 - 1, t.2)
    } else if k == 4 {
        (t.0, t.1, t.2 + 1)
    } else {
        (t.0, t.1, t.2 - 1)
    }
}

/// The squared distance from `pos` to `target`, computed in `i128` so that nothing
/// overflows.
fn wide_heuristic(pos: TileIndex, target: TileIndex) -> (res: i128)
    ensures
        res == heuristic_of(pos, target),
{
    let dx = target.0 as i128 - pos.0 as i128;
    let dy = target.1 as i128 - pos.1 as i128;
    let dz = target.2 as i128 - pos.2 as i128;
    assert(dx * dx <= 0x1_0000_0000 * 0x1_0000_0000) by (nonlinear_arith)
        requires
            -0x1_0000_0000 <= dx <= 0x1_0000_0000,
    ;
    assert(dy * dy <= 0x1_0000_0000 * 0x1_0000_0000) by (nonlinear_arith)
        requires
            -0x1_0000_0000 <= dy <= 0x1_0000_0000,
    ;
    assert(dz * dz <= 0x1_0000_0000 * 0x1_0000_0000) by (nonlinear_arith)
        requires
            -0x1_0000_0000 <= dz <= 0x1_0000_0000,
    ;
    assert(0 <= dx * dx && 0 <= dy * dy && 0 <= dz * dz) by (nonlinear_arith);
    dx * dx + dy * dy + dz * dz
}

/// The squared distance from `pos` to `target`, as the search computes it in `i32`.
fn heuristic(pos: TileIndex, target: TileIndex) -> (res: u32)
    requires
        heuristic_of(pos, target) <= i32::MAX,
    ensures
        res == heuristic_of(pos, target),
{
    let ghost dxi = target.0 - pos.0;
    let ghost dyi = target.1 - pos.1;
    let ghost dzi = target.2 - pos.2;
    assert(dxi * dxi <= i32::MAX && dyi * dyi <= i32::MAX && dzi * dzi <= i32::MAX) by (
    nonlinear_arith)
        requires
            dxi * dxi + dyi * dyi + dzi * dzi <= i32::MAX,
    ;
    assert(-46341 < dxi < 46341 && -46341 < dyi < 46341 && -46341 < dzi < 46341) by (
    nonlinear_arith)
        requires
            dxi * dxi <= i32::MAX,
            dyi * dyi <= i32::MAX,
            dzi * dzi <= i32::MAX,
    ;
    let dx = target.0 - pos.0;
    let dy = target.1 - pos.1;
    let dz = target.2 - pos.2;
    assert(0 <= dx * dx && 0 <= dy * dy && 0 <= dz * dz) by (nonlinear_arith);
    (dx * dx + dy * dy + dz * dz) as u32
}

impl PathSearch {
    /// The search's invariant.
    pub open spec fn wf(&self) -> bool {
        search_wf(self@)
    }

    /// Starts a search for a path to `target`, given the tile costs of the target tile and
    /// of the origin tile: there is none if either costs anything; otherwise the frontier
    /// holds the origin, at the highest priority.
    pub fn start(target: TileIndex, target_cost: u32, origin_cost: u32) -> (res: Option<PathSearch>)
        ensures
            target_cost > 0 || origin_cost > 0 ==> res is None,
            target_cost == 0 && origin_cost == 0 ==> (res matches Some(s) && s.wf() && s@.nodes
                == seq![PathNode { index: (0i32, 0i32, 0i32), parent: None, cost: 0 }]
                && s@.frontier == no_tiles().insert((0i32, 0i32, 0i32), u32::MAX) && s@.cur == 0
                && s@.target == target),
    {
        if target_cost > 0 || origin_cost > 0 {
            return None;
        }
        let origin: TileIndex = (0, 0, 0);
        let mut frontier = queue_new();
        queue_push(&mut frontier, origin, u32::MAX);
        let mut latest: BTreeMap<TileIndex, usize> = BTreeMap::new();
        latest.insert(origin, 0);
        let mut nodes: Vec<PathNode> = Vec::new();
        nodes.push(PathNode { index: origin, parent: None, cost: 0 });
        let res = PathSearch { frontier, nodes, latest, cur: 0, target };
        assert(res@.nodes =~= seq![PathNode { index: (0i32, 0i32, 0i32), parent: None, cost: 0 }]);
        Some(res)
    }

    /// Takes the tile of the greatest priority out of the frontier and visits it; the
    /// search is over when the frontier is empty or the tile is the target.
    pub fn next_tile(&mut self) -> (res: SearchStep)
        requires
            old(self).wf(),
        ensures
            final(self).wf(),
            final(self)@.nodes == old(self)@.nodes,
            final(self)@.target == old(self)@.target,
            old(self)@.frontier == no_tiles() ==> res == SearchStep::Done && final(self)@ == old(
                self,
            )@,
            old(self)@.frontier != no_tiles() ==> {
                let t = final(self)@.nodes[final(self)@.cur].index;
                &&& old(self)@.frontier.contains_key(t)
                &&& forall|o: TileIndex| #[trigger]
                    old(self)@.frontier.contains_key(o) ==> old(self)@.frontier[o]
                        <= old(self)@.frontier[t]
                &&& final(self)@.frontier == old(self)@.frontier.remove(t)
                &&& final(self)@.cur == old(self)@.latest[t]
                &&& final(self)@.latest == old(self)@.latest
                &&& res == if t == old(self)@.target {
                    SearchStep::Done
                } else {
                    SearchStep::Expand(t)
                }
            },
    {
        let ghost s = self@;
        match queue_pop(&mut self.frontier) {
            None => SearchStep::Done,
            Some((t, _)) => {
                assert(s.frontier.contains_key(t));
                let id = match self.latest.get(&t) {
                    Some(id) => *id,
                    None => {
                        assert(false);
                        0
                    },
                };
                self.cur = id;
                assert forall|o: TileIndex| #[trigger] self@.frontier.contains_key(o) implies self@.latest.contains_key(o)
                    && (self@.latest[o] as int) < self@.nodes.len() && self@.nodes[self@.latest[o] as int].index == o by {
                    assert(s.frontier.contains_key(o));
                }
                if same_tile(t, self.target) {
                    SearchStep::Done
                } else {
                    SearchStep::Expand(t)
                }
            },
        }
    }

    /// Whether the search can look at the neighbors of its visited tile.
    pub fn can_expand(&self) -> (res: bool)
        requires
            self.wf(),
        ensures
            res == expandable(self@),
    {
        let t = self.nodes[self.cur].index;
        if !(i32::MIN < t.0 && t.0 < i32::MAX && i32::MIN < t.1 && t.1 < i32::MAX && i32::MIN < t.2
            && t.2 < i32::MAX) {
            return false;
        }
        let mut k: usize = 0;
        while k < 6
            invariant
                k <= 6,
                t == self@.nodes[self@.cur].index,
                inner(t),
                forall|j: int| 0 <= j < k ==> heuristic_of(neighbor_of(t, j), self@.target) <= i32::MAX,
            decreases 6 - k,
        {
            let n = neighbor(t, k);
            if wide_heuristic(n, self.target) > 0x7fff_ffff {
                return false;
            }
            k = k + 1;
        }
        true
    }

    /// Looks at the six neighbors of the visited tile in order, `costs[k]` being the tile
    /// cost of the `k`-th: each gets a node reached from the visited node at the cost so
    /// far plus its tile cost plus one, and enters the frontier (or has its priority
    /// changed) unless the frontier holds it at a higher priority already.
    pub fn expand(&mut self, costs: [u32; 6])
        requires
            old(self).wf(),
            expandable(old(self)@),
        ensures
            final(self).wf(),
            final(self)@ == relax_first(old(self)@, costs@, 6),
    {
        let ghost s = self@;
        let from = self.nodes[self.cur];
        let mut k: usize = 0;
        while k < 6
            invariant
                k <= 6,
                search_wf(s),
                expandable(s),
                from == s.nodes[s.cur],
                self@ == relax_first(s, costs@, k as int),
                search_wf(self@),
                self@.nodes.len() == self.nodes@.len(),
                self@.cur == s.cur,
                self@.target == s.target,
                self@.nodes.len() == s.nodes.len() + k,
                self@.nodes.subrange(0, s.nodes.len() as int) == s.nodes,
            decreases 6 - k,
        {
            let ghost before = self@;
            let n = neighbor(from.index, k);
            let cost = from.cost.saturating_add(costs[k]).saturating_add(1);
            let h = heuristic(n, self.target);
            let p = u32::MAX - cost.saturating_add(h);
            let new_id = self.nodes.len();
            self.nodes.push(PathNode { index: n, parent: Some(self.cur), cost });
            let exchange = match queue_get_priority(&self.frontier, &n) {
                Some(old_priority) => !(p < old_priority),
                None => true,
            };
            if exchange {
                queue_remove(&mut self.frontier, &n);
                queue_push(&mut self.frontier, n, p);
                self.latest.insert(n, new_id);
            }
            proof {
                assert(before.nodes[before.cur] == from) by {
                    assert(before.nodes.subrange(0, s.nodes.len() as int)[s.cur] == s.nodes[s.cur]);
                }
                assert(self@.nodes == before.nodes.push(PathNode { index: n, parent: Some(self.cur), cost }));
                if exchange {
                    assert(self@.frontier =~= before.frontier.insert(n, p));
                }
                assert(self@ == relax(before, k as int, costs@[k as int]));
                assert(self@.nodes.subrange(0, s.nodes.len() as int) =~= s.nodes);
                lemma_relax_wf(before, k as int, costs@[k as int]);
            }
            k = k + 1;
        }
    }

    /// The path the search found: if the visited tile is the target and was reached at a
    /// cost below the largest `u32`, the tiles from the one after the origin to the
    /// target, found by following the nodes' parents back; otherwise none.
    pub fn finish(&self) -> (res: Option<Vec<TileIndex>>)
        requires
            self.wf(),
        ensures
            match res {
                Some(path) => self@.nodes[self@.cur].index == self@.target
                    && self@.nodes[self@.cur].cost < u32::MAX && path@ == path_to(self@.nodes, self@.cur),
                None => !(self@.nodes[self@.cur].index == self@.target
                    && self@.nodes[self@.cur].cost < u32::MAX),
            },
    {
        let ghost nodes = self@.nodes;
        let end = self.nodes[self.cur];
        if !(same_tile(end.index, self.target) && end.cost < u32::MAX) {
            return None;
        }
        let mut backwards: Vec<TileIndex> = Vec::new();
        let mut k: usize = self.cur;
        loop
            invariant
                self.wf(),
                nodes == self@.nodes,
                0 <= k < nodes.len(),
                path_to(nodes, self@.cur) == path_to(nodes, k as int) + backwards@.reverse(),
            ensures
                path_to(nodes, self@.cur) == path_to(nodes, 0) + backwards@.reverse(),
            decreases k,
        {
            let node = self.nodes[k];
            match node.parent {
                Some(p) => {
                    assert(k > 0);
                    assert(path_to(nodes, k as int) == path_to(nodes, p as int).push(node.index));
                    let ghost before = backwards@;
                    backwards.push(node.index);
                    assert(backwards@.reverse() =~= seq![node.index] + before.reverse());
                    assert(path_to(nodes, self@.cur) =~= path_to(nodes, p as int) + backwards@.reverse());
                    k = p;
                },
                None => {
                    assert(k == 0);
                    break;
                },
            }
        }
        assert(path_to(nodes, 0) =~= Seq::<TileIndex>::empty());
        let mut path: Vec<TileIndex> = Vec::new();
        let mut i: usize = backwards.len();
        while i > 0
            invariant
                i <= backwards@.len(),
                path@ == backwards@.subrange(i as int, backwards@.len() as int).reverse(),
            decreases i,
        {
            i = i - 1;
            path.push(backwards[i]);
            assert(backwards@.subrange(i as int, backwards@.len() as int).reverse() =~= backwards@.subrange(
                i + 1,
                backwards@.len() as int,
            ).reverse().push(backwards@[i as int]));
        }
        assert(backwards@.subrange(0, backwards@.len() as int) =~= backwards@);
        assert(path@ =~= path_to(nodes, self@.cur));
        Some(path)
    }

    /// The tiles next to the visited tile, in the order the search looks at them.
    pub fn neighbor_tiles(&self) -> (res: [TileIndex; 6])
        requires
            self.wf(),
            inner(self@.nodes[self@.cur].index),
        ensures
            forall|k: int| 0 <= k < 6 ==> res@[k] == neighbor_of(self@.nodes[self@.cur].index, k),
    {
        let t = self.nodes[self.cur].index;
        [neighbor(t, 0), neighbor(t, 1), neighbor(t, 2), neighbor(t, 3), neighbor(t, 4), neighbor(t, 5)]
    }
}

/// A node reached from an earlier node on an adjacent tile keeps the nodes chained.
proof fn lemma_push_chained(nodes: Seq<PathNode>, node: PathNode)
    requires
        chained(nodes),
        node.parent matches Some(p) && (p as int) < nodes.len() && adjacent(nodes[p as int].index, node.index),
    ensures
        chained(nodes.push(node)),
{
    let all = nodes.push(node);
    assert forall|j: int| 0 < j < all.len() implies ((#[trigger] all[j]).parent matches Some(p) && p < j
        && adjacent(all[p as int].index, all[j].index)) by {
        if j < nodes.len() {
            assert(all[j] == nodes[j]);
            let p = nodes[j].parent.unwrap();
            assert(all[p as int] == nodes[p as int]);
        } else {
            let p = node.parent.unwrap();
            assert(all[p as int] == nodes[p as int]);
        }
    }
}

/// The frontier keeps standing for nodes on its tiles when a node is added and, possibly,
/// a tile is set to stand for it.
proof fn lemma_push_tracked(
    frontier: Map<TileIndex, u32>,
    latest: Map<TileIndex, usize>,
    nodes: Seq<PathNode>,
    node: PathNode,
    p: u32,
    exchange: bool,
)
    requires
        tracked_by(frontier, latest, nodes),
        nodes.len() <= usize::MAX,
    ensures
        exchange ==> tracked_by(
            frontier.insert(node.index, p),
            latest.insert(node.index, nodes.len() as usize),
            nodes.push(node),
        ),
        !exchange ==> tracked_by(frontier, latest, nodes.push(node)),
{
    let all = nodes.push(node);
    assert forall|x: TileIndex| #[trigger] frontier.contains_key(x) implies (latest[x] as int) < all.len()
        && all[latest[x] as int] == nodes[latest[x] as int] by {}
    if exchange {
        let f = frontier.insert(node.index, p);
        let l = latest.insert(node.index, nodes.len() as usize);
        assert forall|x: TileIndex| #[trigger] f.contains_key(x) implies l.contains_key(x) && (l[x] as int)
            < all.len() && all[l[x] as int].index == x by {
            if x != node.index {
                assert(frontier.contains_key(x));
            }
        }
    }
}

/// Looking at a neighbor keeps the search's invariant.
proof fn lemma_relax_wf(s: SearchView, k: int, tile_cost: u32)
    requires
        search_wf(s),
        inner(s.nodes[s.cur].index),
        0 <= k < 6,
        s.nodes.len() <= usize::MAX,
    ensures
        search_wf(relax(s, k, tile_cost)),
{
    let from = s.nodes[s.cur];
    let n = neighbor_of(from.index, k);
    let cost = step_cost(from.cost, tile_cost);
    let p = priority_of(cost, heuristic_of(n, s.target));
    let node = PathNode { index: n, parent: Some(s.cur as usize), cost };
    assert(adjacent(from.index, n));
    lemma_push_chained(s.nodes, node);
    let exchange = !(s.frontier.contains_key(n) && p < s.frontier[n]);
    lemma_push_tracked(s.frontier, s.latest, s.nodes, node, p, exchange);
    assert(s.nodes.push(node)[0] == s.nodes[0]);
}

/// A path the search follows back from a node is a walk over adjacent tiles: it starts
/// next to the origin tile, each tile is next to the one before, and it ends at the
/// node's tile; only the first node, on the origin tile, has an empty path.
pub proof fn lemma_path_is_walk(s: SearchView, k: int)
    requires
        search_wf(s),
        0 <= k < s.nodes.len(),
    ensures
        path_to(s.nodes, k).len() == 0 <==> k == 0,
        k == 0 ==> s.nodes[k].index == (0i32, 0i32, 0i32),
        path_to(s.nodes, k).len() > 0 ==> {
            let path = path_to(s.nodes, k);
            &&& adjacent((0i32, 0i32, 0i32), path[0])
            &&& forall|i: int| 0 <= i < path.len() - 1 ==> adjacent(#[trigger] path[i], path[i + 1])
            &&& path.last() == s.nodes[k].index
        },
    decreases k,
{
    if k > 0 {
        let p = s.nodes[k].parent.unwrap() as int;
        assert(s.nodes[k].parent matches Some(q) && q < k && adjacent(s.nodes[q as int].index, s.nodes[k].index));
        lemma_path_is_walk(s, p);
        let prev = path_to(s.nodes, p);
        let path = path_to(s.nodes, k);
        assert(path == prev.push(s.nodes[k].index));
        if prev.len() > 0 {
            assert forall|i: int| 0 <= i < path.len() - 1 implies adjacent(#[trigger] path[i], path[i + 1]) by {
                if i < prev.len() - 1 {
                    assert(path[i] == prev[i] && path[i + 1] == prev[i + 1]);
                } else {
                    assert(path[i] == prev.last());
                }
            }
        }
    }
}

/// The six neighbors of a tile away from the edge of the `i32` offsets are exactly the
/// tiles that share a face with it, each once: every neighbor is adjacent, no two
/// neighbors are the same tile, and every adjacent tile is one of the neighbors.
pub proof fn lemma_neighbors_are_adjacent_tiles(t: TileIndex, u: TileIndex)
    requires
        inner(t),
    ensures
        forall|k: int| 0 <= k < 6 ==> #[trigger] adjacent(t, neighbor_of(t, k)),
        forall|j: int, k: int|
            0 <= j < k < 6 ==> #[trigger] neighbor_of(t, j) != #[trigger] neighbor_of(t, k),
        adjacent(t, u) <==> exists|k: int| 0 <= k < 6 && #[trigger] neighbor_of(t, k) == u,
{
    if adjacent(t, u) {
        let d0 = u.0 - t.0;
        let d1 = u.1 - t.1;
        let d2 = u.2 - t.2;
        let k: int = if d0 == 1 {
            0
        } else if d0 == -1 {
            1
        } else if d1 == 1 {
            2
        } else if d1 == -1 {
            3
        } else if d2 == 1 {
            4
        } else {
            5
        };
        assert(neighbor_of(t, k) == u);
    }
    if exists|k: int| 0 <= k < 6 && #[trigger] neighbor_of(t, k) == u {
        let k = choose|k: int| 0 <= k < 6 && #[trigger] neighbor_of(t, k) == u;
        assert(adjacent(t, neighbor_of(t, k)));
    }
}

} // verus!
