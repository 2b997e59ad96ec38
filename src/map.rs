use vstd::prelude::*;

verus! {

/// A 2D grid coordinate; only A*'s heuristics read it.
#[derive(Clone, Copy, Debug, PartialEq, Eq)]
pub struct Position {
    pub x: i32,
    pub y: i32,
}

/// A node: its position and its outgoing edges, each a target index and a weight.
#[derive(Debug)]
pub struct Node {
    pub position: Position,
    pub neighbours: Vec<(usize, u32)>,
}

impl Node {
    pub fn new(position: (i32, i32)) -> (r: Node)
        ensures
            r.position == (Position { x: position.0, y: position.1 }),
            r.neighbours@.len() == 0,
    {
        Node { neighbours: Vec::new(), position: Position { x: position.0, y: position.1 } }
    }
}

/// What a map holds: node keys, their positions, and each node's outgoing edges.
pub struct GraphView {
    pub keys: Seq<Seq<char>>,
    pub positions: Seq<Position>,
    pub adj: Seq<Seq<(usize, u32)>>,
}

/// Index `i` of the map left after removing index `x`, as an index of the map before.
pub open spec fn skip(i: int, x: int) -> int {
    if i < x {
        i
    } else {
        i + 1
    }
}

impl GraphView {
    pub open spec fn len(self) -> int {
        self.keys.len() as int
    }

    pub open spec fn wf(self) -> bool {
        &&& self.positions.len() == self.keys.len()
        &&& self.adj.len() == self.keys.len()
        &&& forall|i: int, j: int|
            0 <= i < j < self.len() ==> #[trigger] self.keys[i] != #[trigger] self.keys[j]
        &&& forall|i: int, k: int|
            0 <= i < self.len() && 0 <= k < self.adj[i].len() ==> #[trigger] self.adj[i][k].0
                < self.len()
        &&& forall|i: int, k1: int, k2: int|
            0 <= i < self.len() && 0 <= k1 < k2 < self.adj[i].len() ==> #[trigger] self.adj[i][k1].0
                != #[trigger] self.adj[i][k2].0
    }

    pub open spec fn contains(self, key: Seq<char>) -> bool {
        exists|i: int| 0 <= i < self.len() && self.keys[i] == key
    }

    pub open spec fn index_of(self, key: Seq<char>) -> int {
        choose|i: int| 0 <= i < self.len() && self.keys[i] == key
    }

    pub open spec fn has_edge(self, i: int, j: int) -> bool {
        exists|k: int| 0 <= k < self.adj[i].len() && self.adj[i][k].0 == j
    }

    pub open spec fn slot(self, i: int, j: int) -> int {
        choose|k: int| 0 <= k < self.adj[i].len() && self.adj[i][k].0 == j
    }

    /// Weight of the edge from `i` to `j` (meaningful where `has_edge(i, j)`).
    pub open spec fn weight(self, i: int, j: int) -> int {
        self.adj[i][self.slot(i, j)].1 as int
    }

    /// A walk: a nonempty sequence of node indices, each step an edge.
    pub open spec fn is_walk(self, w: Seq<int>) -> bool {
        &&& w.len() > 0
        &&& forall|t: int| 0 <= t < w.len() ==> 0 <= #[trigger] w[t] < self.len()
        &&& forall|t: int| 0 <= t < w.len() - 1 ==> #[trigger] self.has_edge(w[t], w[t + 1])
    }

    /// Sum of the edge weights along a walk.
    pub open spec fn walk_weight(self, w: Seq<int>) -> int
        decreases w.len(),
    {
        if w.len() <= 1 {
            0
        } else {
            self.walk_weight(w.drop_last()) + self.weight(w[w.len() - 2], w.last())
        }
    }

    /// Cost of a walk: its number of steps when `unit`, else its weight.
    pub open spec fn walk_cost(self, w: Seq<int>, unit: bool) -> int {
        if unit {
            w.len() - 1
        } else {
            self.walk_weight(w)
        }
    }

    /// Some walk leads from `s` to `e` at a cost of at most `budget`.
    pub open spec fn reaches(self, s: int, e: int, budget: int, unit: bool) -> bool {
        exists|w: Seq<int>|
            self.is_walk(w) && w[0] == s && w.last() == e && #[trigger] self.walk_cost(w, unit)
                <= budget
    }

    /// The node names along a walk.
    pub open spec fn names(self, w: Seq<int>) -> Seq<Seq<char>> {
        w.map_values(|i: int| self.keys[i])
    }
}

/// The edge from `i` to `j` sits at slot `k` of `i`'s list, so its weight is that slot's.
pub proof fn lemma_weight_at(g: GraphView, i: int, k: int)
    requires
        g.wf(),
        0 <= i < g.len(),
        0 <= k < g.adj[i].len(),
    ensures
        g.has_edge(i, g.adj[i][k].0 as int),
        g.slot(i, g.adj[i][k].0 as int) == k,
        g.weight(i, g.adj[i][k].0 as int) == g.adj[i][k].1,
{
    let j = g.adj[i][k].0 as int;
    assert(g.has_edge(i, j));
    let s = g.slot(i, j);
    if s != k {
        if s < k {
            assert(g.adj[i][s].0 != g.adj[i][k].0);
        } else {
            assert(g.adj[i][k].0 != g.adj[i][s].0);
        }
    }
}

/// A key held by the map is found at exactly one index.
pub proof fn lemma_index_of(g: GraphView, i: int)
    requires
        g.wf(),
        0 <= i < g.len(),
    ensures
        g.contains(g.keys[i]),
        g.index_of(g.keys[i]) == i,
{
    assert(g.contains(g.keys[i]));
    let x = g.index_of(g.keys[i]);
    if x < i {
        assert(g.keys[x] != g.keys[i]);
    } else if i < x {
        assert(g.keys[i] != g.keys[x]);
    }
}

/// Index `t` of the map before removing index `x`, as an index of the map after.
pub open spec fn unskip(t: int, x: int) -> int {
    if t < x {
        t
    } else {
        t - 1
    }
}

/// An edge of `row` renumbered for the map without index `x`.
pub open spec fn renum(e: (usize, u32), x: int) -> (usize, u32) {
    (unskip(e.0 as int, x) as usize, e.1)
}

/// `r` is `row` without its edges into `x`, the other targets renumbered past `x`;
/// `src` gives for each edge of `r` the slot of `row` that it comes from.
pub open spec fn scrubbed(row: Seq<(usize, u32)>, r: Seq<(usize, u32)>, x: int, src: Seq<int>) -> bool {
    &&& src.len() == r.len()
    &&& forall|k2: int|
        0 <= k2 < r.len() ==> 0 <= #[trigger] src[k2] < row.len() && row[src[k2]].0 != x && r[k2]
            == renum(row[src[k2]], x)
    &&& forall|k: int|
        0 <= k < row.len() && row[k].0 != x ==> exists|k2: int| 0 <= k2 < src.len() && #[trigger] src[k2] == k
    &&& forall|a: int, b: int| 0 <= a < b < r.len() ==> #[trigger] r[a].0 != #[trigger] r[b].0
}

/// `new` is `old` with the node at index `x` gone, and every edge into it.
pub open spec fn removed(old: GraphView, new: GraphView, x: int) -> bool {
    &&& new.keys == old.keys.remove(x)
    &&& new.positions == old.positions.remove(x)
    &&& forall|i: int, j: int|
        0 <= i < new.len() && 0 <= j < new.len() ==> (#[trigger] new.has_edge(i, j)
            == old.has_edge(skip(i, x), skip(j, x)))
    &&& forall|i: int, j: int|
        0 <= i < new.len() && 0 <= j < new.len() && #[trigger] new.has_edge(i, j) ==> new.weight(i, j)
            == old.weight(skip(i, x), skip(j, x))
}

#[verifier::rlimit(40)]
proof fn lemma_scrub_edges(old: GraphView, new: GraphView, x: int, srcs: Seq<Seq<int>>)
    requires
        old.wf(),
        0 <= x < old.len(),
        new.keys == old.keys.remove(x),
        new.positions == old.positions.remove(x),
        new.adj.len() == old.len() - 1,
        srcs.len() == new.adj.len(),
        forall|i: int|
            0 <= i < new.len() ==> scrubbed(old.adj[skip(i, x)], #[trigger] new.adj[i], x, srcs[i]),
    ensures
        new.wf(),
        removed(old, new, x),
{
    assert forall|i: int, j: int| 0 <= i < j < new.len() implies #[trigger] new.keys[i] != #[trigger] new.keys[j] by {
        assert(new.keys[i] == old.keys[skip(i, x)]);
        assert(new.keys[j] == old.keys[skip(j, x)]);
    }
    assert forall|i: int, k: int| 0 <= i < new.len() && 0 <= k < new.adj[i].len() implies #[trigger] new.adj[i][k].0 < new.len() by {
        assert(scrubbed(old.adj[skip(i, x)], new.adj[i], x, srcs[i]));
        let kk = srcs[i][k];
        assert(old.adj[skip(i, x)][kk].0 < old.len());
    }
    assert forall|i: int, j: int| 0 <= i < new.len() && 0 <= j < new.len() implies (#[trigger] new.has_edge(i, j)
            == old.has_edge(skip(i, x), skip(j, x))) by {
        let si = skip(i, x);
        let row = old.adj[si];
        assert(scrubbed(row, new.adj[i], x, srcs[i]));
        if new.has_edge(i, j) {
            let k2 = new.slot(i, j);
            let kk = srcs[i][k2];
            assert(row[kk].0 < old.len());
            assert(row[kk].0 == skip(j, x));
        }
        if old.has_edge(si, skip(j, x)) {
            let kk = old.slot(si, skip(j, x));
            assert(row[kk].0 != x);
            let k2 = choose|k2: int| 0 <= k2 < srcs[i].len() && #[trigger] srcs[i][k2] == kk;
            assert(new.adj[i][k2].0 == j);
            assert(new.has_edge(i, j));
        }
    }
    assert(new.wf());
    assert forall|i: int, j: int| 0 <= i < new.len() && 0 <= j < new.len() && #[trigger] new.has_edge(i, j) implies new.weight(i, j)
            == old.weight(skip(i, x), skip(j, x)) by {
        let si = skip(i, x);
        let row = old.adj[si];
        assert(scrubbed(row, new.adj[i], x, srcs[i]));
        let k2 = new.slot(i, j);
        lemma_weight_at(new, i, k2);
        let kk = srcs[i][k2];
        assert(row[kk].0 < old.len());
        lemma_weight_at(old, si, kk);
    }
}

/// `row` without its edges into `x`, the other targets renumbered past `x`.
#[verifier::rlimit(40)]
fn scrub(row: &Vec<(usize, u32)>, x: usize) -> (r: (Vec<(usize, u32)>, Ghost<Seq<int>>))
    requires
        forall|a: int, b: int| 0 <= a < b < row.len() ==> #[trigger] row@[a].0 != #[trigger] row@[b].0,
    ensures
        scrubbed(row@, r.0@, x as int, r.1@),
{
    let mut r: Vec<(usize, u32)> = Vec::new();
    let mut k: usize = 0;
    let ghost mut src: Seq<int> = Seq::empty();
    while k < row.len()
        invariant
            k <= row.len(),
            forall|a: int, b: int| 0 <= a < b < row.len() ==> #[trigger] row@[a].0 != #[trigger] row@[b].0,
            src.len() == r.len(),
            forall|k2: int| 0 <= k2 < r.len() ==> 0 <= #[trigger] src[k2] < k && row@[src[k2]].0 != x
                && r@[k2] == renum(row@[src[k2]], x as int),
            forall|kk: int| 0 <= kk < k && row@[kk].0 != x ==> exists|k2: int|
                0 <= k2 < src.len() && #[trigger] src[k2] == kk,
            forall|a: int, b: int| 0 <= a < b < r.len() ==> #[trigger] r@[a].0 != #[trigger] r@[b].0,
        decreases row.len() - k,
    {
        let (t, w) = row[k];
        if t != x {
            let u = if t < x { t } else { t - 1 };
            proof {
                assert forall|a: int| 0 <= a < r.len() implies r@[a].0 != u by {
                    assert(row@[src[a]].0 != row@[k as int].0);
                }
                let src0 = src;
                src = src.push(k as int);
                assert forall|kk: int| 0 <= kk < k + 1 && row@[kk].0 != x implies exists|k2: int|
                    0 <= k2 < src.len() && #[trigger] src[k2] == kk by {
                    if kk == k {
                        assert(src[src.len() - 1] == kk);
                    } else {
                        let k2 = choose|k2: int| 0 <= k2 < src0.len() && #[trigger] src0[k2] == kk;
                        assert(src[k2] == kk);
                    }
                }
            }
            let ghost r0 = r@;
            assert((u, w) == renum(row@[k as int], x as int));
            r.push((u, w));
            proof {
                assert forall|a: int, b: int| 0 <= a < b < r.len() implies #[trigger] r@[a].0 != #[trigger] r@[b].0 by {
                    if b == r.len() - 1 {
                        assert(r0[a].0 != u);
                    } else {
                        assert(r0[a].0 != r0[b].0);
                    }
                }
                assert forall|k2: int| 0 <= k2 < r.len() implies 0 <= #[trigger] src[k2] < k + 1 && row@[src[k2]].0 != x
                    && r@[k2] == renum(row@[src[k2]], x as int) by {
                    if k2 < r.len() - 1 {
                        assert(r@[k2] == r0[k2]);
                    }
                }
            }
        }
        k = k + 1;
    }
    (r, Ghost(src))
}

/// A weighted directed graph of named nodes.
pub struct Graph {
    ids: Vec<String>,
    nodes: Vec<Node>,
}

impl View for Graph {
    type V = GraphView;

    closed spec fn view(&self) -> GraphView {
        GraphView {
            keys: self.ids@.map_values(|s: String| s@),
            positions: self.nodes@.map_values(|n: Node| n.position),
            adj: self.nodes@.map_values(|n: Node| n.neighbours@),
        }
    }
}

impl Graph {
    pub open spec fn wf(&self) -> bool {
        self@.wf()
    }

    /// Create an empty map.
    pub fn new() -> (r: Self)
        ensures
            r.wf(),
            r@.len() == 0,
    {
        let r = Graph { ids: Vec::new(), nodes: Vec::new() };
        assert(r@.keys =~= Seq::empty());
        r
    }

    pub fn len(&self) -> (r: usize)
        ensures
            r == self@.len(),
    {
        self.ids.len()
    }

    pub fn key(&self, i: usize) -> (r: &String)
        requires
            i < self@.len(),
        ensures
            r@ == self@.keys[i as int],
    {
        &self.ids[i]
    }

    pub fn position(&self, i: usize) -> (r: Position)
        requires
            self.wf(),
            i < self@.len(),
        ensures
            r == self@.positions[i as int],
    {
        self.nodes[i].position
    }

    pub fn degree(&self, i: usize) -> (r: usize)
        requires
            self.wf(),
            i < self@.len(),
        ensures
            r == self@.adj[i as int].len(),
    {
        self.nodes[i].neighbours.len()
    }

    pub fn neighbour(&self, i: usize, k: usize) -> (r: (usize, u32))
        requires
            self.wf(),
            i < self@.len(),
            k < self@.adj[i as int].len(),
        ensures
            r == self@.adj[i as int][k as int],
    {
        self.nodes[i].neighbours[k]
    }

    /// Add a node named `id` at `position`; a name already present is left as it is.
    pub fn add_node(&mut self, id: &str, position: (i32, i32))
        requires
            old(self).wf(),
        ensures
            final(self).wf(),
            old(self)@.contains(id@) ==> final(self)@ == old(self)@,
            !old(self)@.contains(id@) ==> final(self)@ == (GraphView {
                keys: old(self)@.keys.push(id@),
                positions: old(self)@.positions.push(Position { x: position.0, y: position.1 }),
                adj: old(self)@.adj.push(Seq::empty()),
            }),
    {
        if self.find(id).is_none() {
            let ghost g0 = self@;
            self.ids.push(id.to_owned());
            let node = Node::new(position);
            assert(node.neighbours@ =~= Seq::<(usize, u32)>::empty());
            self.nodes.push(node);
            assert(self.nodes@.last() == node);
            let ghost g = GraphView {
                keys: g0.keys.push(id@),
                positions: g0.positions.push(Position { x: position.0, y: position.1 }),
                adj: g0.adj.push(Seq::empty()),
            };
            assert(self@.keys =~= g.keys);
            assert(self@.positions =~= g.positions);
            assert(self@.adj =~= g.adj);
            assert forall|i: int, j: int| 0 <= i < j < g.len() implies #[trigger] g.keys[i] != #[trigger] g.keys[j] by {
                if j == g.len() - 1 {
                    assert(g.keys[i] == g0.keys[i]);
                }
            }
        }
    }

    /// Add an edge from `from` to `to` of the given weight, where both nodes exist and
    /// no edge joins them yet; otherwise nothing changes. Always succeeds.
    pub fn connect_nodes(&mut self, from: &str, to: &str, weight: u32) -> (r: Result<(), &'static str>)
        requires
            old(self).wf(),
        ensures
            r is Ok,
            final(self).wf(),
            ({
                let g = old(self)@;
                let f = g.index_of(from@);
                let t = g.index_of(to@);
                if g.contains(from@) && g.contains(to@) && !g.has_edge(f, t) {
                    final(self)@ == GraphView { adj: g.adj.update(f, g.adj[f].push((t as usize, weight))), ..g }
                } else {
                    final(self)@ == g
                }
            }),
    {
        let f = self.find(from);
        let t = self.find(to);
        if let (Some(f), Some(t)) = (f, t) {
            let n = self.nodes[f].neighbours.len();
            let mut k: usize = 0;
            while k < n
                invariant
                    *self == *old(self),
                    self.wf(),
                    f < self@.len(),
                    t < self@.len(),
                    f == self@.index_of(from@),
                    t == self@.index_of(to@),
                    self@.contains(from@),
                    self@.contains(to@),
                    n == self@.adj[f as int].len(),
                    k <= n,
                    forall|kk: int| 0 <= kk < k ==> self@.adj[f as int][kk].0 != t,
                decreases n - k,
            {
                if self.nodes[f].neighbours[k].0 == t {
                    assert(self@.adj[f as int][k as int] == self.nodes@[f as int].neighbours@[k as int]);
                    assert(self@.has_edge(f as int, t as int));
                    return Ok(());
                }
                k = k + 1;
            }
            let ghost g0 = self@;
            let mut node = self.nodes.remove(f);
            node.neighbours.push((t, weight));
            self.nodes.insert(f, node);
            let ghost g = GraphView { adj: g0.adj.update(f as int, g0.adj[f as int].push((t, weight))), ..g0 };
            assert(self@.keys =~= g.keys);
            assert(self@.positions =~= g.positions);
            assert(self@.adj =~= g.adj);
            assert forall|i: int, k1: int, k2: int|
                0 <= i < g.len() && 0 <= k1 < k2 < g.adj[i].len() implies #[trigger] g.adj[i][k1].0
                    != #[trigger] g.adj[i][k2].0 by {
                if i == f && k2 == g.adj[i].len() - 1 {
                    assert(g.adj[i][k1] == g0.adj[i][k1]);
                }
            }
            assert(g.wf());
        }
        Ok(())
    }

    /// Remove the node named `id` and every edge into it; an absent name changes
    /// nothing. Always succeeds.
    pub fn remove_node(&mut self, id: &str) -> (r: Result<(), &'static str>)
        requires
            old(self).wf(),
        ensures
            r is Ok,
            final(self).wf(),
            !old(self)@.contains(id@) ==> final(self)@ == old(self)@,
            old(self)@.contains(id@) ==> removed(old(self)@, final(self)@, old(self)@.index_of(id@)),
    {
        if let Some(x) = self.find(id) {
            let ghost g0 = self@;
            self.ids.remove(x);
            self.nodes.remove(x);
            let n = self.nodes.len();
            let ghost mut srcs: Seq<Seq<int>> = Seq::empty();
            let mut i: usize = 0;
            while i < n
                invariant
                    g0.wf(),
                    x < g0.len(),
                    n == g0.len() - 1,
                    self@.keys == g0.keys.remove(x as int),
                    self@.positions == g0.positions.remove(x as int),
                    self@.adj.len() == n,
                    i <= n,
                    srcs.len() == i,
                    forall|j: int| i <= j < n ==> #[trigger] self@.adj[j] == g0.adj[skip(j, x as int)],
                    forall|j: int| 0 <= j < i ==> scrubbed(g0.adj[skip(j, x as int)], #[trigger] self@.adj[j], x as int, srcs[j]),
                decreases n - i,
            {
                let ghost a0 = self@.adj;
                assert(self@.adj[i as int] == g0.adj[skip(i as int, x as int)]);
                let (row, src) = scrub(&self.nodes[i].neighbours, x);
                let mut node = self.nodes.remove(i);
                node.neighbours = row;
                self.nodes.insert(i, node);
                proof {
                    srcs = srcs.push(src@);
                    assert(self@.adj =~= a0.update(i as int, row@));
                    assert(self@.keys == g0.keys.remove(x as int));
                    assert(self@.positions =~= g0.positions.remove(x as int));
                }
                i = i + 1;
            }
            proof {
                lemma_scrub_edges(g0, self@, x as int, srcs);
            }
        }
        Ok(())
    }

    /// The outgoing edges of the node named `id`, as target names and weights; none for
    /// an absent name.
    pub fn neighbours(&self, id: &str) -> (r: Vec<(String, u32)>)
        requires
            self.wf(),
        ensures
            !self@.contains(id@) ==> r@.len() == 0,
            self@.contains(id@) ==> ({
                let row = self@.adj[self@.index_of(id@)];
                &&& r@.len() == row.len()
                &&& forall|k: int| 0 <= k < row.len() ==> (#[trigger] r@[k]).0@ == self@.keys[row[k].0 as int]
                    && r@[k].1 == row[k].1
            }),
    {
        let mut r: Vec<(String, u32)> = Vec::new();
        if let Some(i) = self.find(id) {
            let n = self.nodes[i].neighbours.len();
            let mut k: usize = 0;
            while k < n
                invariant
                    self.wf(),
                    i < self@.len(),
                    n == self@.adj[i as int].len(),
                    k <= n,
                    r@.len() == k,
                    forall|kk: int| 0 <= kk < k ==> (#[trigger] r@[kk]).0@ == self@.keys[self@.adj[i as int][kk].0 as int]
                        && r@[kk].1 == self@.adj[i as int][kk].1,
                decreases n - k,
            {
                let (t, w) = self.nodes[i].neighbours[k];
                assert(self@.adj[i as int][k as int] == (t, w));
                r.push((self.ids[t].clone(), w));
                k = k + 1;
            }
        }
        r
    }

    /// The index of the node named `id`, if there is one.
    pub fn find(&self, id: &str) -> (r: Option<usize>)
        requires
            self.wf(),
        ensures
            match r {
                Some(i) => i < self@.len() && self@.keys[i as int] == id@ && self@.index_of(id@)
                    == i,
                None => !self@.contains(id@),
            },
    {
        let key = id.to_owned();
        let mut i: usize = 0;
        while i < self.ids.len()
            invariant
                i <= self.ids.len(),
                self.wf(),
                key@ == id@,
                forall|j: int| 0 <= j < i ==> self@.keys[j] != id@,
            decreases self.ids.len() - i,
        {
            if self.ids[i] == key {
                proof {
                    lemma_index_of(self@, i as int);
                }
                return Some(i);
            }
            i = i + 1;
        }
        None
    }
}

} // verus!
