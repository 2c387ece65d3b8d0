use vstd::prelude::*;

verus! {

/// A directed edge of the signal graph: the output of node `from` feeds an
/// input of node `to`.
#[derive(Clone, Copy, Debug, PartialEq, Eq, Structural)]
pub struct Connection {
    pub from: usize,
    pub to: usize,
}

/// A graph description that cannot be built.
#[derive(Clone, Copy, Debug, PartialEq, Eq, Structural)]
pub enum GraphError {
    /// A connection names a node that does not exist.
    Dangling,
    /// The connections form a cycle: no execution order exists.
    Cycle,
}

/// Every connection joins two existing nodes.
pub open spec fn endpoints_ok(n: nat, edges: Seq<Connection>) -> bool {
    forall|e: int| 0 <= e < edges.len() ==> #[trigger] edges[e].from < n && edges[e].to < n
}

/// `order` runs each of the `n` nodes exactly once, every node after all
/// the nodes that feed it.
pub open spec fn is_schedule(order: Seq<usize>, n: nat, edges: Seq<Connection>) -> bool {
    &&& order.no_duplicates()
    &&& forall|i: int| 0 <= i < order.len() ==> #[trigger] order[i] < n
    &&& forall|k: usize| k < n ==> #[trigger] order.contains(k)
    &&& forall|e: int, i: int, j: int|
        #![trigger edges[e], order[i], order[j]]
        0 <= e < edges.len() && 0 <= i < order.len() && 0 <= j < order.len() && order[i]
            == edges[e].from && order[j] == edges[e].to ==> i < j
}

/// All the nodes that feed `k` are marked in `placed`.
pub open spec fn ready(placed: Seq<bool>, edges: Seq<Connection>, k: usize) -> bool {
    forall|e: int| 0 <= e < edges.len() && #[trigger] edges[e].to == k ==> placed[edges[e].from as int]
}

/// All the nodes that feed `x` come before it in `prefix`.
pub open spec fn ready_after(prefix: Seq<usize>, edges: Seq<Connection>, x: usize) -> bool {
    forall|e: int| 0 <= e < edges.len() && #[trigger] edges[e].to == x ==> prefix.contains(edges[e].from)
}

/// Each step of `order` runs the lowest-numbered node that has not run yet
/// and whose feeding nodes all have.
pub open spec fn lowest_first(order: Seq<usize>, edges: Seq<Connection>) -> bool {
    forall|k: int, x: usize|
        #![trigger order[k], order.take(k).contains(x)]
        0 <= k < order.len() && x < order[k] && !order.take(k).contains(x) ==> !ready_after(
            order.take(k),
            edges,
            x,
        )
}

/// The number of unmarked entries.
pub open spec fn unplaced(placed: Seq<bool>) -> nat
    decreases placed.len(),
{
    if placed.len() == 0 {
        0
    } else {
        unplaced(placed.drop_last()) + if placed.last() { 0nat } else { 1nat }
    }
}

proof fn lemma_unplaced_mark(placed: Seq<bool>, k: int)
    requires
        0 <= k < placed.len(),
        !placed[k],
    ensures
        unplaced(placed.update(k, true)) + 1 == unplaced(placed),
    decreases placed.len(),
{
    let p2 = placed.update(k, true);
    if k == placed.len() - 1 {
        assert(p2.drop_last() =~= placed.drop_last());
    } else {
        assert(p2.drop_last() =~= placed.drop_last().update(k, true));
        lemma_unplaced_mark(placed.drop_last(), k);
    }
}

/// Whether every connection into `k` comes from a node marked in `placed`.
fn is_ready(placed: &Vec<bool>, edges: &Vec<Connection>, k: usize) -> (r: bool)
    requires
        endpoints_ok(placed@.len(), edges@),
    ensures
        r == ready(placed@, edges@, k),
{
    let mut e: usize = 0;
    while e < edges.len()
        invariant
            e <= edges@.len(),
            endpoints_ok(placed@.len(), edges@),
            forall|x: int| 0 <= x < e && #[trigger] edges@[x].to == k ==> placed@[edges@[x].from as int],
        decreases edges@.len() - e,
    {
        let c = edges[e];
        if c.to == k && !placed[c.from] {
            return false;
        }
        e = e + 1;
    }
    true
}

/// If no order can run a nonempty set of nodes each of which is fed by
/// another member of the set, no schedule exists.
proof fn lemma_stuck_means_cycle(placed: Seq<bool>, n: nat, edges: Seq<Connection>, k: usize, order: Seq<usize>)
    requires
        placed.len() == n,
        endpoints_ok(n, edges),
        k < n,
        !placed[k as int],
        forall|x: usize| x < n && !placed[x as int] ==> !#[trigger] ready(placed, edges, x),
    ensures
        !is_schedule(order, n, edges),
{
    if is_schedule(order, n, edges) {
        assert(order.contains(k));
        let j = choose|j: int| 0 <= j < order.len() && order[j] == k;
        lemma_no_unplaced_at(placed, n, edges, order, j);
    }
}

/// In a schedule, no position holds an unplaced node, when every unplaced
/// node is fed by an unplaced node.
proof fn lemma_no_unplaced_at(placed: Seq<bool>, n: nat, edges: Seq<Connection>, order: Seq<usize>, j: int)
    requires
        placed.len() == n,
        endpoints_ok(n, edges),
        forall|x: usize| x < n && !placed[x as int] ==> !#[trigger] ready(placed, edges, x),
        is_schedule(order, n, edges),
        0 <= j < order.len(),
    ensures
        placed[order[j] as int],
    decreases j,
{
    let x = order[j];
    if !placed[x as int] {
        assert(!ready(placed, edges, x));
        let e = choose|e: int| 0 <= e < edges.len() && #[trigger] edges[e].to == x && !placed[edges[e].from as int];
        let f = edges[e].from;
        assert(order.contains(f));
        let i = choose|i: int| 0 <= i < order.len() && order[i] == f;
        assert(i < j);
        lemma_no_unplaced_at(placed, n, edges, order, i);
    }
}

/// Execution order of `n` nodes: each step runs the lowest-numbered node
/// whose feeding nodes have all run. Fails on a connection to a missing
/// node, or when the connections leave no valid order.
pub fn plan(n: usize, edges: &Vec<Connection>) -> (r: Result<Vec<usize>, GraphError>)
    ensures
        !endpoints_ok(n as nat, edges@) <==> r == Err::<Vec<usize>, GraphError>(GraphError::Dangling),
        r is Ok ==> is_schedule(r->Ok_0@, n as nat, edges@) && lowest_first(r->Ok_0@, edges@),
        r == Err::<Vec<usize>, GraphError>(GraphError::Cycle) ==> forall|o: Seq<usize>|
            !#[trigger] is_schedule(o, n as nat, edges@),
{
    let mut e: usize = 0;
    while e < edges.len()
        invariant
            e <= edges@.len(),
            forall|x: int| 0 <= x < e ==> #[trigger] edges@[x].from < n && edges@[x].to < n,
        decreases edges@.len() - e,
    {
        if edges[e].from >= n || edges[e].to >= n {
            return Err(GraphError::Dangling);
        }
        e = e + 1;
    }
    let mut placed: Vec<bool> = Vec::new();
    let mut i: usize = 0;
    while i < n
        invariant
            i <= n,
            placed@.len() == i,
            forall|x: int| 0 <= x < i ==> !#[trigger] placed@[x],
        decreases n - i,
    {
        placed.push(false);
        i = i + 1;
    }
    let mut order: Vec<usize> = Vec::new();
    loop
        invariant
            placed@.len() == n,
            endpoints_ok(n as nat, edges@),
            order@.no_duplicates(),
            forall|x: int| 0 <= x < order@.len() ==> #[trigger] order@[x] < n,
            forall|k: usize| k < n ==> (placed@[k as int] <==> #[trigger] order@.contains(k)),
            forall|e: int, i: int, j: int|
                #![trigger edges@[e], order@[i], order@[j]]
                0 <= e < edges@.len() && 0 <= i < order@.len() && 0 <= j < order@.len() && order@[i]
                    == edges@[e].from && order@[j] == edges@[e].to ==> i < j,
            forall|e: int, j: int|
                0 <= e < edges@.len() && 0 <= j < order@.len() && #[trigger] order@[j]
                    == #[trigger] edges@[e].to ==> placed@[edges@[e].from as int],
            lowest_first(order@, edges@),
        ensures
            lowest_first(order@, edges@),
            placed@.len() == n,
            endpoints_ok(n as nat, edges@),
            order@.no_duplicates(),
            forall|x: int| 0 <= x < order@.len() ==> #[trigger] order@[x] < n,
            forall|k: usize| k < n ==> (placed@[k as int] <==> #[trigger] order@.contains(k)),
            forall|e: int, i: int, j: int|
                #![trigger edges@[e], order@[i], order@[j]]
                0 <= e < edges@.len() && 0 <= i < order@.len() && 0 <= j < order@.len() && order@[i]
                    == edges@[e].from && order@[j] == edges@[e].to ==> i < j,
            forall|x: usize| x < n && !placed@[x as int] ==> !#[trigger] ready(placed@, edges@, x),
        decreases unplaced(placed@),
    {
        let mut k: usize = 0;
        let mut found: bool = false;
        while k < n && !found
            invariant
                k <= n,
                placed@.len() == n,
                endpoints_ok(n as nat, edges@),
                found ==> k < n && !placed@[k as int] && ready(placed@, edges@, k),
                forall|x: usize| x < k ==> placed@[x as int] || !#[trigger] ready(placed@, edges@, x),
            decreases n - k + if found { 0int } else { 1int },
        {
            if !placed[k] && is_ready(&placed, edges, k) {
                found = true;
            } else {
                k = k + 1;
            }
        }
        if !found {
            break;
        }
        proof {
            lemma_unplaced_mark(placed@, k as int);
        }
        let ghost old_order = order@;
        let ghost old_placed = placed@;
        proof {
            assert forall|x: usize| x < k && !old_order.contains(x) implies !ready_after(
                old_order,
                edges@,
                x,
            ) by {
                assert(!old_placed[x as int]);
                assert(!ready(old_placed, edges@, x));
                let e = choose|e: int|
                    0 <= e < edges@.len() && #[trigger] edges@[e].to == x && !old_placed[edges@[e].from as int];
                assert(!old_order.contains(edges@[e].from));
            }
        }
        placed.set(k, true);
        order.push(k);
        proof {
            assert(order@.take(old_order.len() as int) =~= old_order);
            assert forall|j: int| 0 <= j < old_order.len() implies #[trigger] order@.take(j) == old_order.take(j) by {
                assert(order@.take(j) =~= old_order.take(j));
            }
            assert forall|kk: int, x: usize|
                #![trigger order@[kk], order@.take(kk).contains(x)]
                0 <= kk < order@.len() && x < order@[kk] && !order@.take(kk).contains(x) implies !ready_after(
                    order@.take(kk),
                    edges@,
                    x,
                ) by {
                if kk < old_order.len() {
                    assert(order@.take(kk) == old_order.take(kk));
                    assert(old_order[kk] == order@[kk]);
                }
            }
            assert forall|x: usize| x < n implies (placed@[x as int] <==> #[trigger] order@.contains(x)) by {
                if x == k {
                    assert(order@[old_order.len() as int] == k);
                } else if old_order.contains(x) {
                    let y = choose|y: int| 0 <= y < old_order.len() && old_order[y] == x;
                    assert(order@[y] == x);
                } else {
                    if order@.contains(x) {
                        let y = choose|y: int| 0 <= y < order@.len() && order@[y] == x;
                        assert(y < old_order.len());
                        assert(old_order[y] == x);
                    }
                }
            }
            assert forall|i: int, j: int| 0 <= i < j < order@.len() implies order@[i] != order@[j] by {
                if j == old_order.len() {
                    assert(old_order.contains(order@[i]));
                }
            }
            assert forall|e: int, i: int, j: int|
                #![trigger edges@[e], order@[i], order@[j]]
                0 <= e < edges@.len() && 0 <= i < order@.len() && 0 <= j < order@.len() && order@[i]
                    == edges@[e].from && order@[j] == edges@[e].to implies i < j by {
                if i == old_order.len() {
                    if j < old_order.len() {
                        assert(old_order[j] == edges@[e].to);
                        assert(old_placed[edges@[e].from as int]);
                    } else {
                        assert(ready(old_placed, edges@, k));
                        assert(edges@[e].to == k);
                    }
                } else if j < old_order.len() {
                    assert(old_order[i] == edges@[e].from && old_order[j] == edges@[e].to);
                }
            }
            assert forall|e: int, j: int|
                0 <= e < edges@.len() && 0 <= j < order@.len() && #[trigger] order@[j]
                    == #[trigger] edges@[e].to implies placed@[edges@[e].from as int] by {
                if j == old_order.len() {
                    assert(ready(old_placed, edges@, k));
                } else {
                    assert(old_order[j] == edges@[e].to);
                }
            }
        }
    }
    let mut k: usize = 0;
    while k < n
        invariant
            k <= n,
            placed@.len() == n,
            endpoints_ok(n as nat, edges@),
            forall|x: usize| x < n && !placed@[x as int] ==> !#[trigger] ready(placed@, edges@, x),
            forall|x: usize| x < k ==> #[trigger] placed@[x as int],
        decreases n - k,
    {
        if !placed[k] {
            proof {
                assert forall|o: Seq<usize>| !#[trigger] is_schedule(o, n as nat, edges@) by {
                    lemma_stuck_means_cycle(placed@, n as nat, edges@, k, o);
                }
            }
            return Err(GraphError::Cycle);
        }
        k = k + 1;
    }
    assert forall|x: usize| x < n implies #[trigger] order@.contains(x) by {
        assert(placed@[x as int]);
    }
    Ok(order)
}

/// A wire of the signal graph: the output of node `from` feeds input slot
/// `port` of node `to`.
#[derive(Clone, Copy, Debug, PartialEq, Eq, Structural)]
pub struct Wire {
    pub from: usize,
    pub to: usize,
    pub port: usize,
}

/// The node-to-node connections that the wires make.
pub open spec fn wire_edges(wires: Seq<Wire>) -> Seq<Connection> {
    wires.map_values(|w: Wire| Connection { from: w.from, to: w.to })
}

/// Wire `i` feeds slot `port` of `node`.
pub open spec fn feeds(wires: Seq<Wire>, i: int, node: usize, port: usize) -> bool {
    wires[i].to == node && wires[i].port == port
}

/// What a graph is, as seen from outside.
pub ghost struct GraphView {
    pub wires: Seq<Wire>,
    /// Execution order of the nodes.
    pub order: Seq<usize>,
    /// Latest output of each node.
    pub outputs: Seq<int>,
}

/// A built signal graph: fixed wiring, a fixed execution order, and the
/// latest output value of every node.
pub struct Graph {
    wires: Vec<Wire>,
    order: Vec<usize>,
    outputs: Vec<i32>,
}

impl View for Graph {
    type V = GraphView;

    closed spec fn view(&self) -> GraphView {
        GraphView {
            wires: self.wires@,
            order: self.order@,
            outputs: self.outputs@.map_values(|x: i32| x as int),
        }
    }
}

impl Graph {
    /// Well formed: wires between existing nodes, a schedule of all of them.
    pub open spec fn graph_wf(g: GraphView) -> bool {
        &&& endpoints_ok(g.outputs.len(), wire_edges(g.wires))
        &&& is_schedule(g.order, g.outputs.len(), wire_edges(g.wires))
        &&& forall|i: int| 0 <= i < g.outputs.len() ==> i32::MIN <= #[trigger] g.outputs[i] <= i32::MAX
    }

    /// Builds the graph of `n` nodes from its wires, once, before any audio
    /// runs; fails as `plan` does on a dangling wire or a cycle. Every
    /// output starts at 0.
    pub fn build(n: usize, wires: Vec<Wire>) -> (r: Result<Graph, GraphError>)
        ensures
            !endpoints_ok(n as nat, wire_edges(wires@)) <==> r == Err::<Graph, GraphError>(
                GraphError::Dangling,
            ),
            r == Err::<Graph, GraphError>(GraphError::Cycle) ==> forall|o: Seq<usize>|
                !#[trigger] is_schedule(o, n as nat, wire_edges(wires@)),
            r is Ok ==> {
                let g = r->Ok_0@;
                &&& Graph::graph_wf(g)
                &&& lowest_first(g.order, wire_edges(g.wires))
                &&& g.wires == wires@
                &&& g.outputs == Seq::new(n as nat, |i: int| 0int)
            },
    {
        let mut edges: Vec<Connection> = Vec::new();
        let mut i: usize = 0;
        while i < wires.len()
            invariant
                i <= wires@.len(),
                edges@ == wire_edges(wires@).subrange(0, i as int),
            decreases wires@.len() - i,
        {
            edges.push(Connection { from: wires[i].from, to: wires[i].to });
            i = i + 1;
            assert(edges@ =~= wire_edges(wires@).subrange(0, i as int));
        }
        assert(edges@ =~= wire_edges(wires@));
        let order = match plan(n, &edges) {
            Ok(o) => o,
            Err(e) => {
                return Err(e);
            },
        };
        let mut outputs: Vec<i32> = Vec::new();
        let mut k: usize = 0;
        while k < n
            invariant
                k <= n,
                outputs@.len() == k,
                forall|j: int| 0 <= j < k ==> outputs@[j] == 0,
            decreases n - k,
        {
            outputs.push(0);
            k = k + 1;
        }
        let g = Graph { wires, order, outputs };
        assert(g@.outputs =~= Seq::new(n as nat, |i: int| 0int));
        Ok(g)
    }

    /// Number of nodes.
    pub fn nodes(&self) -> (r: usize)
        ensures
            r == self@.outputs.len(),
    {
        self.outputs.len()
    }

    /// The node that runs `k`-th.
    pub fn node_at(&self, k: usize) -> (r: usize)
        requires
            Graph::graph_wf(self@),
            k < self@.order.len(),
        ensures
            r == self@.order[k as int],
            r < self@.outputs.len(),
    {
        self.order[k]
    }

    /// Number of steps in the execution order (one per node).
    pub fn steps(&self) -> (r: usize)
        ensures
            r == self@.order.len(),
    {
        self.order.len()
    }

    /// Latest output of `node`.
    pub fn output(&self, node: usize) -> (r: i32)
        requires
            node < self@.outputs.len(),
        ensures
            r as int == self@.outputs[node as int],
    {
        self.outputs[node]
    }

    /// Records the output `node` has just computed.
    pub fn set_output(&mut self, node: usize, v: i32)
        requires
            Graph::graph_wf(old(self)@),
            node < old(self)@.outputs.len(),
        ensures
            Graph::graph_wf(final(self)@),
            final(self)@ == (GraphView { outputs: old(self)@.outputs.update(node as int, v as int), ..old(self)@ }),
    {
        self.outputs.set(node, v);
        assert(self@.outputs =~= old(self)@.outputs.update(node as int, v as int));
    }

    /// The value at input slot `port` of `node`: the latest output of the
    /// node on the first wire into that slot, or 0 where no wire feeds it.
    pub fn input(&self, node: usize, port: usize) -> (r: i32)
        requires
            Graph::graph_wf(self@),
        ensures
            (forall|i: int| 0 <= i < self@.wires.len() ==> !#[trigger] feeds(self@.wires, i, node, port))
                ==> r == 0,
            (exists|i: int| 0 <= i < self@.wires.len() && #[trigger] feeds(self@.wires, i, node, port))
                ==> exists|i: int|
                0 <= i < self@.wires.len() && #[trigger] feeds(self@.wires, i, node, port) && (forall|j: int|
                    0 <= j < i ==> !#[trigger] feeds(self@.wires, j, node, port)) && r as int
                    == self@.outputs[self@.wires[i].from as int],
    {
        let mut i: usize = 0;
        while i < self.wires.len()
            invariant
                i <= self@.wires.len(),
                Graph::graph_wf(self@),
                forall|j: int| 0 <= j < i ==> !#[trigger] feeds(self@.wires, j, node, port),
            decreases self@.wires.len() - i,
        {
            let w = self.wires[i];
            if w.to == node && w.port == port {
                assert(feeds(self@.wires, i as int, node, port));
                assert(wire_edges(self@.wires)[i as int].from == w.from);
                return self.outputs[w.from];
            }
            i = i + 1;
        }
        0
    }
}

} // verus!
