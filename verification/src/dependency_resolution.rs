//! A directed graph of "depends on" edges and its evaluation order.
//!
//! Nodes are addressed by their position in the graph. The order in which
//! nodes are evaluated places every node after the nodes it depends on,
//! whenever the graph has no cycle.

use vstd::prelude::*;
use vstd::std_specs::cmp::PartialEqSpec;

verus! {

/// One node of a dependency graph.
pub struct Node<T> {
    /// Position of the node in the graph that holds it.
    pub handle: usize,
    pub name: String,
    /// Handles of the nodes that this node depends on.
    pub depends_on: Vec<usize>,
    /// Handles of the nodes that depend on this node.
    pub is_dependent_of: Vec<usize>,
    pub value: T,
}

/// The mathematical content of a [`Node`].
pub ghost struct NodeView<T> {
    pub handle: int,
    pub name: Seq<char>,
    pub depends_on: Seq<usize>,
    pub is_dependent_of: Seq<usize>,
    pub value: T,
}

impl<T> View for Node<T> {
    type V = NodeView<T>;

    open spec fn view(&self) -> NodeView<T> {
        NodeView {
            handle: self.handle as int,
            name: self.name@,
            depends_on: self.depends_on@,
            is_dependent_of: self.is_dependent_of@,
            value: self.value,
        }
    }
}

/// An insertion-ordered collection of nodes, addressed by position.
pub struct Graph<T> {
    pub nodes: Vec<Node<T>>,
}

impl<T> View for Graph<T> {
    type V = Seq<NodeView<T>>;

    open spec fn view(&self) -> Seq<NodeView<T>> {
        Seq::new(self.nodes@.len(), |i: int| self.nodes@[i]@)
    }
}

/// A value from which a node can be made.
pub trait IntoNode<T>: Sized {
    /// The node that the value turns into. Its handle is set when the node
    /// enters a graph.
    spec fn node_view(self) -> NodeView<T>;

    fn into_node(self) -> (node: Node<T>)
        ensures
            node@ == self.node_view(),
    ;
}

impl<T> IntoNode<T> for Node<T> {
    open spec fn node_view(self) -> NodeView<T> {
        self@
    }

    fn into_node(self) -> (node: Node<T>) {
        self
    }
}

/// A node without edges that carries nothing but the name `s`.
impl<'a> IntoNode<()> for &'a str {
    open spec fn node_view(self) -> NodeView<()> {
        NodeView {
            handle: 0,
            name: self@,
            depends_on: Seq::empty(),
            is_dependent_of: Seq::empty(),
            value: (),
        }
    }

    fn into_node(self) -> (node: Node<()>) {
        Node {
            handle: 0,
            name: self.to_string(),
            depends_on: Vec::new(),
            is_dependent_of: Vec::new(),
            value: (),
        }
    }
}

/// A node without edges and without a name that carries the number itself.
impl IntoNode<usize> for usize {
    open spec fn node_view(self) -> NodeView<usize> {
        NodeView {
            handle: 0,
            name: Seq::empty(),
            depends_on: Seq::empty(),
            is_dependent_of: Seq::empty(),
            value: self,
        }
    }

    fn into_node(self) -> (node: Node<usize>) {
        Node {
            handle: 0,
            name: String::new(),
            depends_on: Vec::new(),
            is_dependent_of: Vec::new(),
            value: self,
        }
    }
}

/// Writes "`self` depends on `other`" as a pair.
pub trait DependsOn {
    spec fn handle_of(&self) -> usize;

    fn on(&self, other: usize) -> (pair: (usize, usize))
        ensures
            pair == (self.handle_of(), other),
    ;
}

impl DependsOn for usize {
    open spec fn handle_of(&self) -> usize {
        *self
    }

    fn on(&self, other: usize) -> (pair: (usize, usize)) {
        (*self, other)
    }
}

/// One or more pairs `(a, b)`, each of which says that `a` depends on `b`.
pub trait DependencyChain {
    /// The pairs, in the order in which they are recorded.
    spec fn pairs(&self) -> Seq<(usize, usize)>;

    fn list_dep(&self) -> (deps: Vec<(usize, usize)>)
        ensures
            deps@ == self.pairs(),
    ;
}

impl DependencyChain for (usize, usize) {
    open spec fn pairs(&self) -> Seq<(usize, usize)> {
        seq![*self]
    }

    fn list_dep(&self) -> (deps: Vec<(usize, usize)>) {
        let mut deps: Vec<(usize, usize)> = Vec::new();
        deps.push(*self);
        assert(deps@ =~= seq![*self]);
        deps
    }
}

impl DependencyChain for Vec<(usize, usize)> {
    open spec fn pairs(&self) -> Seq<(usize, usize)> {
        self@
    }

    fn list_dep(&self) -> (deps: Vec<(usize, usize)>) {
        let mut deps: Vec<(usize, usize)> = Vec::new();
        let mut k: usize = 0;
        while k < self.len()
            invariant
                k <= self@.len(),
                deps@ == self@.take(k as int),
            decreases self@.len() - k,
        {
            deps.push(self[k]);
            assert(self@.take(k + 1) =~= self@.take(k as int).push(self@[k as int]));
            k += 1;
        }
        assert(self@.take(k as int) =~= self@);
        deps
    }
}

impl<const N: usize> DependencyChain for [(usize, usize); N] {
    open spec fn pairs(&self) -> Seq<(usize, usize)> {
        self@
    }

    fn list_dep(&self) -> (deps: Vec<(usize, usize)>) {
        let mut deps: Vec<(usize, usize)> = Vec::new();
        let mut k: usize = 0;
        while k < N
            invariant
                k <= N,
                self@.len() == N,
                deps@ == self@.take(k as int),
            decreases N - k,
        {
            deps.push(self[k]);
            assert(self@.take(k + 1) =~= self@.take(k as int).push(self@[k as int]));
            k += 1;
        }
        assert(self@.take(k as int) =~= self@);
        deps
    }
}

/// The "depends on" lists of the nodes, by handle.
pub open spec fn adjacency_of<T>(nodes: Seq<NodeView<T>>) -> Seq<Seq<usize>> {
    Seq::new(nodes.len(), |i: int| nodes[i].depends_on)
}

/// The "is dependent of" lists of the nodes, by handle.
pub open spec fn inverse_adjacency_of<T>(nodes: Seq<NodeView<T>>) -> Seq<Seq<usize>> {
    Seq::new(nodes.len(), |i: int| nodes[i].is_dependent_of)
}

/// `handle` occurs in `list`.
pub open spec fn mentions(list: Seq<usize>, handle: int) -> bool {
    exists|p: int| 0 <= p < list.len() && #[trigger] list[p] as int == handle
}

/// Every entry of every list names a node of the graph.
pub open spec fn edges_in_range(adj: Seq<Seq<usize>>) -> bool {
    forall|i: int, k: int|
        0 <= i < adj.len() && 0 <= k < adj[i].len() ==> (#[trigger] adj[i][k]) < adj.len()
}

/// The invariant of a graph: every node knows its own handle, every edge
/// names a node of the graph, and the two lists of edges mirror each other:
/// `b` is among the nodes that `a` depends on exactly if `a` is among the
/// nodes that depend on `b`.
pub open spec fn well_formed<T>(nodes: Seq<NodeView<T>>) -> bool {
    &&& forall|i: int| 0 <= i < nodes.len() ==> (#[trigger] nodes[i]).handle == i
    &&& edges_in_range(adjacency_of(nodes))
    &&& edges_in_range(inverse_adjacency_of(nodes))
    &&& forall|a: int, b: int|
        0 <= a < nodes.len() && 0 <= b < nodes.len() ==> (mentions(nodes[a].depends_on, b)
            <==> #[trigger] mentions(nodes[b].is_dependent_of, a))
}

/// The nodes after "`a` depends on `b`" was recorded: `b` joins the nodes
/// that `a` depends on, and `a` joins the nodes that depend on `b`.
pub open spec fn with_dependency<T>(nodes: Seq<NodeView<T>>, a: usize, b: usize) -> Seq<
    NodeView<T>,
> {
    let first = nodes.update(
        a as int,
        NodeView { depends_on: nodes[a as int].depends_on.push(b), ..nodes[a as int] },
    );
    first.update(
        b as int,
        NodeView { is_dependent_of: first[b as int].is_dependent_of.push(a), ..first[b as int] },
    )
}

/// The nodes after each pair of `pairs` was recorded, first to last.
pub open spec fn with_dependencies<T>(nodes: Seq<NodeView<T>>, pairs: Seq<(usize, usize)>) -> Seq<
    NodeView<T>,
>
    decreases pairs.len(),
{
    if pairs.len() == 0 {
        nodes
    } else {
        with_dependency(
            with_dependencies(nodes, pairs.drop_last()),
            pairs.last().0,
            pairs.last().1,
        )
    }
}

/// Every handle in `pairs` names one of `count` nodes.
pub open spec fn pairs_in_range(pairs: Seq<(usize, usize)>, count: int) -> bool {
    forall|k: int| 0 <= k < pairs.len() ==> (#[trigger] pairs[k]).0 < count && pairs[k].1 < count
}

/// Handle of the first node at or after `from` whose value equals `value`.
pub open spec fn first_with_value<T: PartialEq>(
    nodes: Seq<NodeView<T>>,
    value: T,
    from: int,
) -> Option<usize>
    decreases nodes.len() - from,
{
    if from < 0 || from >= nodes.len() {
        None
    } else if nodes[from].value.eq_spec(&value) {
        Some(from as usize)
    } else {
        first_with_value(nodes, value, from + 1)
    }
}

/// The nodes after "the first node that carries `a` depends on the first node
/// that carries `b`" was recorded. Where either is missing nothing changes.
pub open spec fn with_value_dependency<T: PartialEq>(nodes: Seq<NodeView<T>>, a: T, b: T) -> Seq<
    NodeView<T>,
> {
    match (first_with_value(nodes, a, 0), first_with_value(nodes, b, 0)) {
        (Some(x), Some(y)) => with_dependency(nodes, x, y),
        _ => nodes,
    }
}

/// `to` is reached from `from` by following exactly `steps` edges.
pub open spec fn reaches_in(adj: Seq<Seq<usize>>, from: int, to: int, steps: nat) -> bool
    decreases steps,
{
    if steps == 0 {
        from == to
    } else {
        &&& 0 <= from < adj.len()
        &&& exists|k: int|
            0 <= k < adj[from].len() && reaches_in(
                adj,
                (#[trigger] adj[from][k]) as int,
                to,
                (steps - 1) as nat,
            )
    }
}

/// `target` is a member of `list`, or is reached from one by following edges.
pub open spec fn list_reaches(adj: Seq<Seq<usize>>, list: Seq<usize>, target: int) -> bool {
    exists|k: int, steps: nat|
        0 <= k < list.len() && #[trigger] reaches_in(adj, list[k] as int, target, steps)
}

/// Node `a` depends on node `b`, directly or through other nodes.
pub open spec fn depends_transitively(adj: Seq<Seq<usize>>, a: int, b: int) -> bool {
    0 <= a < adj.len() && list_reaches(adj, adj[a], b)
}

/// No node depends on itself, directly or through other nodes.
pub open spec fn acyclic(adj: Seq<Seq<usize>>) -> bool {
    forall|v: int| !depends_transitively(adj, v, v)
}

/// Index of the first entry of `placed`, at or after `from`, that depends on
/// node `i` directly or through other nodes; the length of `placed` where no
/// entry does.
pub open spec fn first_dependent_from(
    adj: Seq<Seq<usize>>,
    placed: Seq<usize>,
    i: int,
    from: int,
) -> int
    decreases placed.len() - from,
{
    if from < 0 || from >= placed.len() {
        placed.len() as int
    } else if depends_transitively(adj, placed[from] as int, i) {
        from
    } else {
        first_dependent_from(adj, placed, i, from + 1)
    }
}

/// Where node `i` enters the order `placed`: right before the first entry
/// that depends on it, or at the end.
pub open spec fn insert_position(adj: Seq<Seq<usize>>, placed: Seq<usize>, i: int) -> int {
    first_dependent_from(adj, placed, i, 0)
}

/// The order of the nodes `0 .. count`, built by letting each node enter in
/// turn at its [`insert_position`].
pub open spec fn order_of_first(adj: Seq<Seq<usize>>, count: nat) -> Seq<usize>
    decreases count,
{
    if count == 0 {
        Seq::empty()
    } else {
        let placed = order_of_first(adj, (count - 1) as nat);
        placed.insert(insert_position(adj, placed, count - 1), (count - 1) as usize)
    }
}

/// The order in which the nodes of a graph are evaluated.
pub open spec fn evaluation_order(adj: Seq<Seq<usize>>) -> Seq<usize> {
    order_of_first(adj, adj.len())
}

/// `handle` stands in `order` at an index strictly below `p`.
pub open spec fn stands_before(order: Seq<usize>, handle: usize, p: int) -> bool {
    exists|q: int| 0 <= q < p && q < order.len() && #[trigger] order[q] == handle
}

/// Every node that an entry of `order` depends on stands at a strictly
/// earlier index of `order`.
pub open spec fn order_valid(adj: Seq<Seq<usize>>, order: Seq<usize>) -> bool {
    forall|p: int, k: int|
        0 <= p < order.len() && order[p] < adj.len() && 0 <= k < adj[order[p] as int].len()
            ==> stands_before(order, #[trigger] adj[order[p] as int][k], p)
}

/// Every node of the graph stands somewhere in `order`.
pub open spec fn covers_all(adj: Seq<Seq<usize>>, order: Seq<usize>) -> bool {
    forall|v: int| 0 <= v < adj.len() ==> #[trigger] mentions(order, v)
}

/// `order` holds each of the handles `0 .. count` once and nothing else.
pub open spec fn permutes(order: Seq<usize>, count: int) -> bool {
    &&& order.len() == count
    &&& forall|p: int| 0 <= p < order.len() ==> (#[trigger] order[p]) < count
    &&& forall|p: int, q: int|
        0 <= p < order.len() && 0 <= q < order.len() && p != q ==> order[p] != order[q]
    &&& forall|v: int| 0 <= v < count ==> #[trigger] mentions(order, v)
}

/// The handles of the nodes in `order`.
pub open spec fn handles_of<T>(order: Seq<&Node<T>>) -> Seq<usize> {
    Seq::new(order.len(), |k: int| order[k].handle)
}

/// What a list mentions after one more handle was put at its end.
pub proof fn lemma_mentions_push(list: Seq<usize>, x: usize, v: int)
    ensures
        mentions(list.push(x), v) <==> (mentions(list, v) || x as int == v),
{
    let longer = list.push(x);
    if mentions(list, v) {
        let p = choose|p: int| 0 <= p < list.len() && #[trigger] list[p] as int == v;
        assert(longer[p] as int == v);
    }
    if x as int == v {
        assert(longer[list.len() as int] as int == v);
    }
    if mentions(longer, v) {
        let p = choose|p: int| 0 <= p < longer.len() && #[trigger] longer[p] as int == v;
        if p < list.len() {
            assert(list[p] as int == v);
        }
    }
}

/// What [`first_with_value`] finds is a node.
pub proof fn lemma_first_with_value_in_range<T: PartialEq>(
    nodes: Seq<NodeView<T>>,
    value: T,
    from: int,
)
    requires
        nodes.len() <= usize::MAX,
    ensures
        first_with_value(nodes, value, from) matches Some(x) ==> from <= x < nodes.len(),
    decreases nodes.len() - from,
{
    if 0 <= from < nodes.len() && !nodes[from].value.eq_spec(&value) {
        lemma_first_with_value_in_range(nodes, value, from + 1);
    }
}

/// Recording a dependency between two nodes of a graph keeps its invariant.
pub proof fn lemma_with_dependency_well_formed<T>(nodes: Seq<NodeView<T>>, a: usize, b: usize)
    requires
        well_formed(nodes),
        a < nodes.len(),
        b < nodes.len(),
    ensures
        well_formed(with_dependency(nodes, a, b)),
        with_dependency(nodes, a, b).len() == nodes.len(),
{
    let after = with_dependency(nodes, a, b);
    let adj = adjacency_of(nodes);
    let inv = inverse_adjacency_of(nodes);
    assert forall|i: int, k: int|
        0 <= i < adjacency_of(after).len() && 0 <= k < adjacency_of(after)[i].len() implies (
    #[trigger] adjacency_of(after)[i][k]) < adjacency_of(after).len() by {
        if i == a && k == nodes[a as int].depends_on.len() {
        } else {
            assert(adjacency_of(after)[i][k] == adj[i][k]);
        }
    }
    assert forall|i: int, k: int|
        0 <= i < inverse_adjacency_of(after).len() && 0 <= k < inverse_adjacency_of(
            after,
        )[i].len() implies (#[trigger] inverse_adjacency_of(after)[i][k]) < inverse_adjacency_of(
        after,
    ).len() by {
        if i == b && k == nodes[b as int].is_dependent_of.len() {
        } else {
            assert(inverse_adjacency_of(after)[i][k] == inv[i][k]);
        }
    }
    assert forall|x: int, y: int| 0 <= x < after.len() && 0 <= y < after.len() implies (mentions(
        after[x].depends_on,
        y,
    ) <==> #[trigger] mentions(after[y].is_dependent_of, x)) by {
        assert(mentions(nodes[x].depends_on, y) <==> mentions(nodes[y].is_dependent_of, x));
        if x == a {
            lemma_mentions_push(nodes[x].depends_on, b, y);
        }
        if y == b {
            lemma_mentions_push(nodes[y].is_dependent_of, a, x);
        }
    }
}

/// A path can be extended by one edge at its end.
pub proof fn lemma_reaches_extend(adj: Seq<Seq<usize>>, from: int, mid: int, steps: nat, k: int)
    requires
        reaches_in(adj, from, mid, steps),
        0 <= mid < adj.len(),
        0 <= k < adj[mid].len(),
    ensures
        reaches_in(adj, from, adj[mid][k] as int, steps + 1),
    decreases steps,
{
    if steps == 0 {
        assert(reaches_in(adj, adj[mid][k] as int, adj[mid][k] as int, 0));
    } else {
        let j = choose|j: int|
            0 <= j < adj[from].len() && reaches_in(
                adj,
                (#[trigger] adj[from][j]) as int,
                mid,
                (steps - 1) as nat,
            );
        lemma_reaches_extend(adj, adj[from][j] as int, mid, (steps - 1) as nat, k);
    }
}

/// Two paths that meet can be joined.
pub proof fn lemma_reaches_join(
    adj: Seq<Seq<usize>>,
    from: int,
    mid: int,
    to: int,
    first: nat,
    second: nat,
)
    requires
        reaches_in(adj, from, mid, first),
        reaches_in(adj, mid, to, second),
    ensures
        reaches_in(adj, from, to, first + second),
    decreases first,
{
    if first > 0 {
        let j = choose|j: int|
            0 <= j < adj[from].len() && reaches_in(
                adj,
                (#[trigger] adj[from][j]) as int,
                mid,
                (first - 1) as nat,
            );
        lemma_reaches_join(adj, adj[from][j] as int, mid, to, (first - 1) as nat, second);
    }
}

/// Transitive dependency is transitive.
pub proof fn lemma_depends_transitive(adj: Seq<Seq<usize>>, a: int, b: int, c: int)
    requires
        depends_transitively(adj, a, b),
        depends_transitively(adj, b, c),
    ensures
        depends_transitively(adj, a, c),
{
    let (k1, s1) = choose|k: int, steps: nat|
        0 <= k < adj[a].len() && #[trigger] reaches_in(adj, adj[a][k] as int, b, steps);
    let (k2, s2) = choose|k: int, steps: nat|
        0 <= k < adj[b].len() && #[trigger] reaches_in(adj, adj[b][k] as int, c, steps);
    assert(reaches_in(adj, b, c, s2 + 1));
    lemma_reaches_join(adj, adj[a][k1] as int, b, c, s1, s2 + 1);
    assert(reaches_in(adj, adj[a][k1] as int, c, s1 + (s2 + 1)));
}

/// A direct dependency is a transitive dependency.
pub proof fn lemma_edge_depends(adj: Seq<Seq<usize>>, a: int, k: int)
    requires
        0 <= a < adj.len(),
        0 <= k < adj[a].len(),
    ensures
        depends_transitively(adj, a, adj[a][k] as int),
{
    assert(reaches_in(adj, adj[a][k] as int, adj[a][k] as int, 0));
}

/// What [`insert_position`] finds: no entry before it depends on `i`, and
/// the entry at it, if there is one, does.
pub proof fn lemma_insert_position(adj: Seq<Seq<usize>>, placed: Seq<usize>, i: int)
    ensures
        0 <= insert_position(adj, placed, i) <= placed.len(),
        forall|k: int|
            0 <= k < insert_position(adj, placed, i) ==> !depends_transitively(
                adj,
                (#[trigger] placed[k]) as int,
                i,
            ),
        insert_position(adj, placed, i) < placed.len() ==> depends_transitively(
            adj,
            placed[insert_position(adj, placed, i)] as int,
            i,
        ),
{
    lemma_first_dependent_from(adj, placed, i, 0);
}

proof fn lemma_first_dependent_from(adj: Seq<Seq<usize>>, placed: Seq<usize>, i: int, from: int)
    requires
        0 <= from <= placed.len(),
    ensures
        from <= first_dependent_from(adj, placed, i, from) <= placed.len(),
        forall|k: int|
            from <= k < first_dependent_from(adj, placed, i, from) ==> !depends_transitively(
                adj,
                (#[trigger] placed[k]) as int,
                i,
            ),
        first_dependent_from(adj, placed, i, from) < placed.len() ==> depends_transitively(
            adj,
            placed[first_dependent_from(adj, placed, i, from)] as int,
            i,
        ),
    decreases placed.len() - from,
{
    if from < placed.len() && !depends_transitively(adj, placed[from] as int, i) {
        lemma_first_dependent_from(adj, placed, i, from + 1);
    }
}

/// The order of the first `count` nodes holds each of them once.
pub proof fn lemma_order_permutes(adj: Seq<Seq<usize>>, count: nat)
    requires
        count <= usize::MAX,
    ensures
        permutes(order_of_first(adj, count), count as int),
    decreases count,
{
    if count > 0 {
        let placed = order_of_first(adj, (count - 1) as nat);
        let i = (count - 1) as usize;
        let pos = insert_position(adj, placed, count - 1);
        let order = placed.insert(pos, i);
        lemma_order_permutes(adj, (count - 1) as nat);
        lemma_insert_position(adj, placed, count - 1);
        assert(order[pos] == i);
        assert forall|v: int| 0 <= v < count implies #[trigger] mentions(order, v) by {
            if v < count - 1 {
                assert(mentions(placed, v));
                let p = choose|p: int| 0 <= p < placed.len() && #[trigger] placed[p] as int == v;
                if p < pos {
                    assert(order[p] as int == v);
                } else {
                    assert(order[p + 1] as int == v);
                }
            } else {
                assert(order[pos] as int == v);
            }
        }
    }
}

/// In the order of the nodes of a graph without a cycle, a node stands after
/// every node that it depends on, directly or through other nodes.
pub proof fn lemma_order_respects_dependencies(adj: Seq<Seq<usize>>, count: nat)
    requires
        acyclic(adj),
        count <= usize::MAX,
    ensures
        forall|p: int, q: int|
            #![trigger order_of_first(adj, count)[p], order_of_first(adj, count)[q]]
            0 <= p < count && 0 <= q < count && depends_transitively(
                adj,
                order_of_first(adj, count)[p] as int,
                order_of_first(adj, count)[q] as int,
            ) ==> q < p,
    decreases count,
{
    if count > 0 {
        let placed = order_of_first(adj, (count - 1) as nat);
        let i = (count - 1) as usize;
        let pos = insert_position(adj, placed, count - 1);
        let order = placed.insert(pos, i);
        lemma_order_respects_dependencies(adj, (count - 1) as nat);
        lemma_order_permutes(adj, (count - 1) as nat);
        lemma_insert_position(adj, placed, count - 1);
        assert forall|p: int, q: int|
            #![trigger order[p], order[q]]
            0 <= p < count && 0 <= q < count && depends_transitively(
                adj,
                order[p] as int,
                order[q] as int,
            ) implies q < p by {
            let p_before = if p < pos {
                p
            } else {
                p - 1
            };
            let q_before = if q < pos {
                q
            } else {
                q - 1
            };
            if p == pos && q == pos {
                assert(!depends_transitively(adj, i as int, i as int));
            } else if p == pos {
                assert(order[q] == placed[q_before]);
                if q_before >= pos {
                    lemma_depends_transitive(adj, placed[pos] as int, i as int, placed[q_before] as int);
                    assert(depends_transitively(adj, placed[pos] as int, placed[q_before] as int));
                    assert(q_before < pos);
                }
            } else if q == pos {
                assert(order[p] == placed[p_before]);
                if p_before < pos {
                    assert(!depends_transitively(adj, placed[p_before] as int, i as int));
                }
            } else {
                assert(order[p] == placed[p_before]);
                assert(order[q] == placed[q_before]);
                assert(depends_transitively(adj, placed[p_before] as int, placed[q_before] as int));
                assert(q_before < p_before);
            }
        }
    }
}

/// Topological validity: the evaluation order of a graph without a cycle
/// holds every node once, and each node stands after all the nodes it
/// depends on.
pub proof fn lemma_acyclic_order_valid(adj: Seq<Seq<usize>>)
    requires
        edges_in_range(adj),
        acyclic(adj),
        adj.len() <= usize::MAX,
    ensures
        permutes(evaluation_order(adj), adj.len() as int),
        order_valid(adj, evaluation_order(adj)),
{
    let order = evaluation_order(adj);
    lemma_order_permutes(adj, adj.len());
    lemma_order_respects_dependencies(adj, adj.len());
    assert forall|p: int, k: int|
        0 <= p < order.len() && order[p] < adj.len() && 0 <= k < adj[order[p] as int].len()
        implies stands_before(order, #[trigger] adj[order[p] as int][k], p) by {
        let a = order[p] as int;
        let d = adj[a][k];
        lemma_edge_depends(adj, a, k);
        assert(mentions(order, d as int));
        let q = choose|q: int| 0 <= q < order.len() && #[trigger] order[q] as int == d as int;
        assert(depends_transitively(adj, order[p] as int, order[q] as int));
        assert(q < p);
        assert(order[q] == d);
    }
}

/// In a valid order, whatever is reached from the entry at `p` stands at or
/// before `p`.
proof fn lemma_valid_order_descends(
    adj: Seq<Seq<usize>>,
    order: Seq<usize>,
    p: int,
    to: int,
    steps: nat,
)
    requires
        order_valid(adj, order),
        0 <= p < order.len(),
        reaches_in(adj, order[p] as int, to, steps),
    ensures
        exists|q: int| 0 <= q <= p && #[trigger] order[q] as int == to && (steps > 0 ==> q < p),
    decreases steps,
{
    if steps > 0 {
        let a = order[p] as int;
        let k = choose|k: int|
            0 <= k < adj[a].len() && reaches_in(
                adj,
                (#[trigger] adj[a][k]) as int,
                to,
                (steps - 1) as nat,
            );
        assert(stands_before(order, adj[order[p] as int][k], p));
        let q1 = choose|q: int|
            0 <= q < p && q < order.len() && #[trigger] order[q] == adj[order[p] as int][k];
        lemma_valid_order_descends(adj, order, q1, to, (steps - 1) as nat);
    }
}

/// A node that depends on itself stands nowhere in a valid order.
proof fn lemma_cycle_node_absent(adj: Seq<Seq<usize>>, order: Seq<usize>, v: int, p: int)
    requires
        order_valid(adj, order),
        depends_transitively(adj, v, v),
        0 <= p < order.len(),
    ensures
        order[p] as int != v,
    decreases p,
{
    if order[p] as int == v {
        let (k, steps) = choose|k: int, steps: nat|
            0 <= k < adj[v].len() && #[trigger] reaches_in(adj, adj[v][k] as int, v, steps);
        assert(reaches_in(adj, v, v, steps + 1));
        lemma_valid_order_descends(adj, order, p, v, steps + 1);
        let q = choose|q: int| 0 <= q < p && #[trigger] order[q] as int == v;
        lemma_cycle_node_absent(adj, order, v, q);
    }
}

/// Cycle detection: no order that holds every node of a graph with a cycle
/// is valid.
pub proof fn lemma_cycle_has_no_valid_order(adj: Seq<Seq<usize>>, order: Seq<usize>)
    requires
        !acyclic(adj),
        covers_all(adj, order),
    ensures
        !order_valid(adj, order),
{
    if order_valid(adj, order) {
        let v = choose|v: int| depends_transitively(adj, v, v);
        assert(mentions(order, v));
        let p = choose|p: int| 0 <= p < order.len() && #[trigger] order[p] as int == v;
        lemma_cycle_node_absent(adj, order, v, p);
    }
}

/// Cycle detection: the evaluation order of a graph with a cycle is not
/// valid.
pub proof fn lemma_cyclic_order_invalid(adj: Seq<Seq<usize>>)
    requires
        !acyclic(adj),
        adj.len() <= usize::MAX,
    ensures
        !order_valid(adj, evaluation_order(adj)),
{
    lemma_order_permutes(adj, adj.len());
    lemma_cycle_has_no_valid_order(adj, evaluation_order(adj));
}

/// The nodes marked in `marks` include every node that a marked node depends on.
pub open spec fn closed_under_edges(adj: Seq<Seq<usize>>, marks: Seq<bool>) -> bool {
    &&& marks.len() == adj.len()
    &&& forall|v: int, k: int|
        0 <= v < adj.len() && marks[v] && 0 <= k < adj[v].len() ==> (#[trigger] adj[v][k])
            < adj.len() && marks[adj[v][k] as int]
}

/// Whatever is reached from a marked node of a closed set is marked.
pub proof fn lemma_closed_set_holds_reached(
    adj: Seq<Seq<usize>>,
    marks: Seq<bool>,
    from: int,
    to: int,
    steps: nat,
)
    requires
        closed_under_edges(adj, marks),
        0 <= from < adj.len(),
        marks[from],
        reaches_in(adj, from, to, steps),
    ensures
        0 <= to < adj.len(),
        marks[to],
    decreases steps,
{
    if steps > 0 {
        let j = choose|j: int|
            0 <= j < adj[from].len() && reaches_in(
                adj,
                (#[trigger] adj[from][j]) as int,
                to,
                (steps - 1) as nat,
            );
        lemma_closed_set_holds_reached(adj, marks, adj[from][j] as int, to, (steps - 1) as nat);
    }
}

/// Number of entries of `marks` that are `false`.
pub open spec fn count_unmarked(marks: Seq<bool>) -> nat
    decreases marks.len(),
{
    if marks.len() == 0 {
        0
    } else {
        count_unmarked(marks.drop_last()) + if marks.last() {
            0nat
        } else {
            1nat
        }
    }
}

/// Marking an unmarked entry lowers the count of unmarked entries by one.
pub proof fn lemma_mark_lowers_count(marks: Seq<bool>, i: int)
    requires
        0 <= i < marks.len(),
        !marks[i],
    ensures
        count_unmarked(marks.update(i, true)) + 1 == count_unmarked(marks),
    decreases marks.len(),
{
    let after = marks.update(i, true);
    if i == marks.len() - 1 {
        assert(after.drop_last() =~= marks.drop_last());
    } else {
        assert(after.drop_last() =~= marks.drop_last().update(i, true));
        lemma_mark_lowers_count(marks.drop_last(), i);
    }
}

/// The search from `list` has only marked nodes that it reached, and every
/// queued node is marked.
pub open spec fn search_sound(
    adj: Seq<Seq<usize>>,
    list: Seq<usize>,
    marks: Seq<bool>,
    pending: Seq<usize>,
) -> bool {
    &&& marks.len() == adj.len()
    &&& forall|j: int| 0 <= j < list.len() ==> (#[trigger] list[j]) < adj.len() && marks[list[j] as int]
    &&& forall|v: int| 0 <= v < adj.len() && #[trigger] marks[v] ==> list_reaches(adj, list, v)
    &&& forall|p: int|
        0 <= p < pending.len() ==> (#[trigger] pending[p]) < adj.len() && marks[pending[p] as int]
}

/// Every marked node that has left the queue, but for `current`, differs
/// from `target` and has all the nodes it depends on marked.
pub open spec fn search_settled(
    adj: Seq<Seq<usize>>,
    marks: Seq<bool>,
    pending: Seq<usize>,
    target: int,
    current: int,
) -> bool {
    forall|v: int|
        0 <= v < adj.len() && #[trigger] marks[v] && v != current && !mentions(pending, v) ==> v
            != target && forall|m: int|
            0 <= m < adj[v].len() ==> marks[(#[trigger] adj[v][m]) as int]
}

impl<T> Default for Graph<T> {
    /// A graph without nodes.
    fn default() -> (graph: Self)
        ensures
            graph@.len() == 0,
            graph.wf(),
    {
        let graph = Graph { nodes: Vec::new() };
        assert(edges_in_range(adjacency_of(graph@)));
        graph
    }
}

impl Graph<()> {
    /// An empty graph whose nodes carry only a name.
    pub fn new_debug() -> (graph: Self)
        ensures
            graph@.len() == 0,
            graph.wf(),
    {
        let graph = Graph { nodes: Vec::new() };
        assert(edges_in_range(adjacency_of(graph@)));
        graph
    }
}

impl<T> Graph<T> {
    /// The "depends on" lists of the nodes, by handle.
    pub open spec fn adjacency(&self) -> Seq<Seq<usize>> {
        adjacency_of(self@)
    }

    /// The invariant of a graph, see [`well_formed`].
    pub open spec fn wf(&self) -> bool {
        well_formed(self@)
    }

    /// Drops every node.
    pub fn reset(&mut self)
        ensures
            final(self).nodes@.len() == 0,
            final(self).wf(),
    {
        self.nodes = Vec::new();
        assert(edges_in_range(adjacency_of(self@)));
    }

    /// Appends a node and returns its handle.
    pub fn add<N: IntoNode<T>>(&mut self, n: N) -> (index: usize)
        ensures
            index == old(self)@.len(),
            final(self)@ == old(self)@.push(NodeView { handle: index as int, ..n.node_view() }),
            old(self).wf() && n.node_view().depends_on.len() == 0
                && n.node_view().is_dependent_of.len() == 0 ==> final(self).wf(),
    {
        let index = self.nodes.len();
        let mut node = n.into_node();
        node.handle = index;
        self.nodes.push(node);
        proof {
            let before = old(self)@;
            let after = self@;
            assert(after =~= before.push(NodeView { handle: index as int, ..n.node_view() }));
            if old(self).wf() && n.node_view().depends_on.len() == 0
                && n.node_view().is_dependent_of.len() == 0 {
                assert forall|i: int, k: int|
                    0 <= i < adjacency_of(after).len() && 0 <= k < adjacency_of(
                        after,
                    )[i].len() implies (#[trigger] adjacency_of(after)[i][k]) < adjacency_of(
                    after,
                ).len() by {
                    assert(adjacency_of(after)[i][k] == adjacency_of(before)[i][k]);
                }
                assert forall|i: int, k: int|
                    0 <= i < inverse_adjacency_of(after).len() && 0 <= k < inverse_adjacency_of(
                        after,
                    )[i].len() implies (#[trigger] inverse_adjacency_of(after)[i][k])
                    < inverse_adjacency_of(after).len() by {
                    assert(inverse_adjacency_of(after)[i][k] == inverse_adjacency_of(before)[i][k]);
                }
                assert forall|a: int, b: int| 0 <= a < after.len() && 0 <= b < after.len() implies (
                mentions(after[a].depends_on, b) <==> #[trigger] mentions(
                    after[b].is_dependent_of,
                    a,
                )) by {
                    if a < before.len() && b < before.len() {
                        assert(mentions(before[a].depends_on, b) <==> mentions(
                            before[b].is_dependent_of,
                            a,
                        ));
                    } else if a < before.len() {
                        if mentions(before[a].depends_on, b) {
                            let p = choose|p: int|
                                0 <= p < before[a].depends_on.len()
                                    && #[trigger] before[a].depends_on[p] as int == b;
                            assert(adjacency_of(before)[a][p] < before.len());
                        }
                    } else if b < before.len() {
                        if mentions(before[b].is_dependent_of, a) {
                            let p = choose|p: int|
                                0 <= p < before[b].is_dependent_of.len()
                                    && #[trigger] before[b].is_dependent_of[p] as int == a;
                            assert(inverse_adjacency_of(before)[b][p] < before.len());
                        }
                    }
                }
            }
        }
        index
    }

    /// Records "`a` depends on `b`" between two nodes given by handle.
    fn link(&mut self, a: usize, b: usize)
        requires
            a < old(self)@.len(),
            b < old(self)@.len(),
        ensures
            final(self)@ == with_dependency(old(self)@, a, b),
    {
        self.nodes[a].depends_on.push(b);
        self.nodes[b].is_dependent_of.push(a);
        assert(self@ =~= with_dependency(old(self)@, a, b));
    }

    /// Records every pair `(a, b)` of `deps` as "`a` depends on `b`", in the
    /// order of the pairs.
    pub fn specify_dependencies<D: DependencyChain>(&mut self, deps: D)
        requires
            pairs_in_range(deps.pairs(), old(self)@.len() as int),
        ensures
            final(self)@ == with_dependencies(old(self)@, deps.pairs()),
            final(self)@.len() == old(self)@.len(),
            old(self).wf() ==> final(self).wf(),
    {
        let pairs = deps.list_dep();
        let mut k: usize = 0;
        while k < pairs.len()
            invariant
                k <= pairs@.len(),
                pairs@ == deps.pairs(),
                pairs_in_range(pairs@, old(self)@.len() as int),
                self@.len() == old(self)@.len(),
                self@ == with_dependencies(old(self)@, pairs@.take(k as int)),
                old(self).wf() ==> self.wf(),
            decreases pairs@.len() - k,
        {
            let (a, b) = pairs[k];
            let ghost before = self@;
            self.link(a, b);
            proof {
                assert(pairs@.take(k + 1).drop_last() =~= pairs@.take(k as int));
                if old(self).wf() {
                    lemma_with_dependency_well_formed(before, a, b);
                }
            }
            k += 1;
        }
        assert(pairs@.take(k as int) =~= pairs@);
    }

    /// Handle of the first node whose value equals `value`.
    pub fn position(&self, value: &T) -> (found: Option<usize>) where T: PartialEq
        ensures
            T::obeys_eq_spec() ==> found == first_with_value(self@, *value, 0),
            found matches Some(x) ==> x < self@.len(),
    {
        let mut k: usize = 0;
        while k < self.nodes.len()
            invariant
                k <= self@.len(),
                self@.len() == self.nodes@.len(),
                T::obeys_eq_spec() ==> first_with_value(self@, *value, 0) == first_with_value(
                    self@,
                    *value,
                    k as int,
                ),
            decreases self@.len() - k,
        {
            if self.nodes[k].value == *value {
                return Some(k);
            }
            k += 1;
        }
        None
    }

    /// Records "`a` depends on `b`" between the first node that carries `a`
    /// and the first node that carries `b`. Where either is missing nothing
    /// changes.
    pub fn add_dependency(&mut self, a: T, b: T) where T: PartialEq
        ensures
            T::obeys_eq_spec() ==> final(self)@ == with_value_dependency(old(self)@, a, b),
            final(self)@.len() == old(self)@.len(),
            old(self).wf() ==> final(self).wf(),
    {
        if let Some(a_ind) = self.position(&a) {
            if let Some(b_ind) = self.position(&b) {
                proof {
                    if old(self).wf() {
                        lemma_with_dependency_well_formed(self@, a_ind, b_ind);
                    }
                }
                self.link(a_ind, b_ind);
            }
        }
    }

    /// Every entry of `order` is a node of this graph.
    pub open spec fn holds(&self, order: Seq<&Node<T>>) -> bool {
        forall|k: int|
            0 <= k < order.len() ==> (#[trigger] order[k]).handle < self.nodes@.len()
                && *order[k] == self.nodes@[order[k].handle as int]
    }

    /// A node of the graph that enters a list of its nodes is held by the
    /// list, and its handle enters the handles of the list at the same
    /// index.
    pub proof fn lemma_placed(
        &self,
        earlier: Seq<&Node<T>>,
        later: Seq<&Node<T>>,
        index: int,
        handle: int,
    )
        requires
            self.wf(),
            self.holds(earlier),
            0 <= index <= earlier.len(),
            0 <= handle < self.nodes@.len(),
            later == earlier.insert(index, &self.nodes@[handle]),
        ensures
            self.holds(later),
            handles_of(later) == handles_of(earlier).insert(index, handle as usize),
    {
        assert(self@[handle].handle == handle);
        assert forall|k: int| 0 <= k < later.len() implies (#[trigger] later[k]).handle
            < self.nodes@.len() && *later[k] == self.nodes@[later[k].handle as int] by {
            if k < index {
                assert(later[k] == earlier[k]);
            } else if k > index {
                assert(later[k] == earlier[k - 1]);
            }
        }
        assert(handles_of(later) =~= handles_of(earlier).insert(index, handle as usize));
    }

    /// Where node `i` enters `existing_list`: the index of the first entry
    /// that depends on `i`, directly or through other nodes, or the length
    /// of the list.
    pub fn find_insert_index(&self, existing_list: &mut Vec<&Node<T>>, i: usize) -> (index: usize)
        requires
            self.wf(),
            self.holds(old(existing_list)@),
        ensures
            final(existing_list)@ == old(existing_list)@,
            index == insert_position(self.adjacency(), handles_of(old(existing_list)@), i as int),
    {
        let ghost adj = self.adjacency();
        let ghost placed = handles_of(existing_list@);
        let mut j: usize = 0;
        while j < existing_list.len()
            invariant
                self.wf(),
                self.holds(existing_list@),
                existing_list@ == old(existing_list)@,
                adj == self.adjacency(),
                placed == handles_of(existing_list@),
                j <= existing_list@.len(),
                insert_position(adj, placed, i as int) == first_dependent_from(
                    adj,
                    placed,
                    i as int,
                    j as int,
                ),
            decreases existing_list@.len() - j,
        {
            let existing: &Node<T> = existing_list[j];
            proof {
                assert(placed[j as int] == existing.handle);
                assert(adj[existing.handle as int] == existing.depends_on@);
                assert forall|k: int| 0 <= k < existing.depends_on@.len() implies existing.depends_on@[k]
                    < self.nodes@.len() by {
                    assert(adj[existing.handle as int][k] < adj.len());
                }
            }
            if self.does_transient_dependency_exist(&existing.depends_on, i) {
                return j;
            }
            j += 1;
        }
        j
    }

    /// The nodes in the order in which they are evaluated.
    pub fn calculate_order<'a>(&'a self) -> (order: Vec<&'a Node<T>>)
        requires
            self.wf(),
        ensures
            self.holds(order@),
            handles_of(order@) == evaluation_order(self.adjacency()),
    {
        let ghost adj = self.adjacency();
        let mut existing_list: Vec<&'a Node<T>> = Vec::new();
        let mut node_i: usize = 0;
        assert(handles_of(existing_list@) =~= order_of_first(adj, 0));
        while node_i < self.nodes.len()
            invariant
                self.wf(),
                adj == self.adjacency(),
                node_i <= self.nodes@.len(),
                self.holds(existing_list@),
                handles_of(existing_list@) == order_of_first(adj, node_i as nat),
            decreases self.nodes@.len() - node_i,
        {
            let ghost placed = handles_of(existing_list@);
            let insert_index = self.find_insert_index(&mut existing_list, node_i);
            proof {
                lemma_insert_position(adj, placed, node_i as int);
            }
            let ghost earlier = existing_list@;
            existing_list.insert(insert_index, &self.nodes[node_i]);
            proof {
                self.lemma_placed(earlier, existing_list@, insert_index as int, node_i as int);
            }
            node_i += 1;
        }
        existing_list
    }

    /// The handles of the nodes in the order in which they are evaluated.
    pub fn calculate_order_indices(&self) -> (order: Vec<usize>)
        requires
            self.wf(),
        ensures
            order@ == evaluation_order(self.adjacency()),
    {
        let ghost adj = self.adjacency();
        let mut existing_list: Vec<&Node<T>> = Vec::new();
        let mut out_list: Vec<usize> = Vec::new();
        let mut node_i: usize = 0;
        assert(handles_of(existing_list@) =~= order_of_first(adj, 0));
        while node_i < self.nodes.len()
            invariant
                self.wf(),
                adj == self.adjacency(),
                node_i <= self.nodes@.len(),
                self.holds(existing_list@),
                handles_of(existing_list@) == order_of_first(adj, node_i as nat),
                out_list@ == handles_of(existing_list@),
            decreases self.nodes@.len() - node_i,
        {
            let ghost placed = handles_of(existing_list@);
            let insert_index = self.find_insert_index(&mut existing_list, node_i);
            proof {
                lemma_insert_position(adj, placed, node_i as int);
            }
            let ghost earlier = existing_list@;
            existing_list.insert(insert_index, &self.nodes[node_i]);
            out_list.insert(insert_index, node_i);
            proof {
                self.lemma_placed(earlier, existing_list@, insert_index as int, node_i as int);
            }
            node_i += 1;
        }
        out_list
    }

    /// Does every node that an entry of `order` depends on stand earlier in
    /// `order`? Nodes are told apart by their handles.
    pub fn is_order_valid<'a>(&'a self, order: &Vec<&'a Node<T>>) -> (valid: bool)
        requires
            self.wf(),
            self.holds(order@),
        ensures
            valid == order_valid(self.adjacency(), handles_of(order@)),
    {
        let ghost adj = self.adjacency();
        let ghost handles = handles_of(order@);
        let mut prior: Vec<usize> = Vec::new();
        let mut p: usize = 0;
        while p < order.len()
            invariant
                self.wf(),
                self.holds(order@),
                adj == self.adjacency(),
                handles == handles_of(order@),
                p <= order@.len(),
                prior@ == handles.take(p as int),
                forall|x: int, k: int|
                    0 <= x < p && 0 <= k < adj[handles[x] as int].len() ==> stands_before(
                        handles,
                        #[trigger] adj[handles[x] as int][k],
                        x,
                    ),
            decreases order@.len() - p,
        {
            let node: &Node<T> = order[p];
            proof {
                assert(order@[p as int].handle < self.nodes@.len());
                assert(handles[p as int] == node.handle);
                assert(adj[node.handle as int] == node.depends_on@);
            }
            let mut k: usize = 0;
            while k < node.depends_on.len()
                invariant
                    adj == self.adjacency(),
                    handles == handles_of(order@),
                    p < order@.len(),
                    node.handle < adj.len(),
                    handles[p as int] == node.handle,
                    adj[node.handle as int] == node.depends_on@,
                    prior@ == handles.take(p as int),
                    k <= node.depends_on@.len(),
                    forall|m: int|
                        0 <= m < k ==> stands_before(
                            handles,
                            #[trigger] adj[node.handle as int][m],
                            p as int,
                        ),
                decreases node.depends_on@.len() - k,
            {
                let dependency = node.depends_on[k];
                let mut q: usize = 0;
                let mut seen = false;
                while q < prior.len()
                    invariant
                        q <= prior@.len(),
                        seen <==> exists|x: int| 0 <= x < q && prior@[x] == dependency,
                    decreases prior@.len() - q,
                {
                    if prior[q] == dependency {
                        seen = true;
                    }
                    q += 1;
                }
                proof {
                    assert(dependency == adj[handles[p as int] as int][k as int]);
                    if seen {
                        let x = choose|x: int| 0 <= x < prior@.len() && prior@[x] == dependency;
                        assert(handles[x] == dependency);
                    }
                    if stands_before(handles, dependency, p as int) {
                        let x = choose|x: int|
                            0 <= x < p && x < handles.len() && #[trigger] handles[x] == dependency;
                        assert(prior@[x] == dependency);
                    }
                    assert(seen == stands_before(handles, dependency, p as int));
                }
                if !seen {
                    return false;
                }
                k += 1;
            }
            prior.push(node.handle);
            proof {
                assert(handles.take(p + 1) =~= handles.take(p as int).push(node.handle));
            }
            p += 1;
        }
        true
    }

    /// Is the graph free of cycles? It is exactly if the order in which its
    /// nodes are evaluated is valid.
    pub fn is_acyclic(&self) -> (free: bool)
        requires
            self.wf(),
        ensures
            free == acyclic(self.adjacency()),
    {
        let order = self.calculate_order();
        let ghost bound = self.nodes.len();
        proof {
            assert(self.adjacency().len() <= usize::MAX);
            if acyclic(self.adjacency()) {
                lemma_acyclic_order_valid(self.adjacency());
            } else {
                lemma_cyclic_order_invalid(self.adjacency());
            }
        }
        self.is_order_valid(&order)
    }

    /// Reachability test: is `i` a member of `depends_on`, or reached from a
    /// member by following "depends on" edges? The search marks the nodes
    /// that it has seen, so that it comes to an end on a graph with a cycle
    /// too.
    pub fn does_transient_dependency_exist(&self, depends_on: &Vec<usize>, i: usize) -> (found:
        bool)
        requires
            self.wf(),
            forall|k: int| 0 <= k < depends_on@.len() ==> depends_on@[k] < self.nodes@.len(),
        ensures
            found == list_reaches(self.adjacency(), depends_on@, i as int),
    {
        let n = self.nodes.len();
        let ghost adj = self.adjacency();
        let mut visited: Vec<bool> = Vec::new();
        while visited.len() < n
            invariant
                visited@.len() <= n,
                forall|v: int| 0 <= v < visited@.len() ==> !visited@[v],
            decreases n - visited@.len(),
        {
            visited.push(false);
        }
        let mut pending: Vec<usize> = Vec::new();
        let mut k: usize = 0;
        while k < depends_on.len()
            invariant
                n == self.nodes@.len(),
                adj == self.adjacency(),
                visited@.len() == n,
                k <= depends_on@.len(),
                forall|j: int| 0 <= j < depends_on@.len() ==> depends_on@[j] < n,
                forall|j: int| 0 <= j < k ==> visited@[depends_on@[j] as int],
                forall|v: int| 0 <= v < n && #[trigger] visited@[v] ==> list_reaches(adj, depends_on@, v),
                forall|v: int| 0 <= v < n && #[trigger] visited@[v] ==> mentions(pending@, v),
                forall|p: int|
                    0 <= p < pending@.len() ==> (#[trigger] pending@[p]) < n
                        && visited@[pending@[p] as int],
            decreases depends_on@.len() - k,
        {
            let d = depends_on[k];
            if !visited[d] {
                let ghost queue = pending@;
                visited[d] = true;
                pending.push(d);
                proof {
                    assert(reaches_in(adj, depends_on@[k as int] as int, d as int, 0));
                    assert forall|v: int| 0 <= v < n && #[trigger] visited@[v] implies mentions(
                        pending@,
                        v,
                    ) by {
                        lemma_mentions_push(queue, d, v);
                    }
                }
            }
            k += 1;
        }
        assert(search_sound(adj, depends_on@, visited@, pending@));
        assert(search_settled(adj, visited@, pending@, i as int, -1));
        while pending.len() > 0
            invariant
                n == self.nodes@.len(),
                adj == self.adjacency(),
                edges_in_range(adj),
                search_sound(adj, depends_on@, visited@, pending@),
                search_settled(adj, visited@, pending@, i as int, -1),
            decreases count_unmarked(visited@) + pending@.len(),
        {
            let ghost before = pending@;
            let ghost budget = count_unmarked(visited@) + pending@.len();
            let u = pending.pop().unwrap();
            proof {
                assert(before =~= pending@.push(u));
                assert forall|v: int| mentions(before, v) implies mentions(pending@, v) || v == u by {
                    lemma_mentions_push(pending@, u, v);
                }
            }
            if u == i {
                return true;
            }
            let mut j: usize = 0;
            while j < self.nodes[u].depends_on.len()
                invariant
                    n == self.nodes@.len(),
                    adj == self.adjacency(),
                    edges_in_range(adj),
                    u < n,
                    u != i,
                    visited@[u as int],
                    j <= adj[u as int].len(),
                    search_sound(adj, depends_on@, visited@, pending@),
                    search_settled(adj, visited@, pending@, i as int, u as int),
                    forall|m: int| 0 <= m < j ==> visited@[(#[trigger] adj[u as int][m]) as int],
                    count_unmarked(visited@) + pending@.len() + 1 == budget,
                decreases adj[u as int].len() - j,
            {
                let v = self.nodes[u].depends_on[j];
                assert(v == adj[u as int][j as int]);
                if !visited[v] {
                    let ghost marks = visited@;
                    let ghost queue = pending@;
                    visited[v] = true;
                    pending.push(v);
                    proof {
                        lemma_mark_lowers_count(marks, v as int);
                        let (k_found, s_found) = choose|k: int, steps: nat|
                            0 <= k < depends_on@.len() && #[trigger] reaches_in(
                                adj,
                                depends_on@[k] as int,
                                u as int,
                                steps,
                            );
                        lemma_reaches_extend(adj, depends_on@[k_found] as int, u as int, s_found, j as int);
                        assert forall|w: int| mentions(pending@, w) <==> (mentions(queue, w) || w
                            == v) by {
                            lemma_mentions_push(queue, v, w);
                        }
                        lemma_mentions_push(queue, v, v as int);
                    }
                }
                j += 1;
            }
        }
        proof {
            assert forall|v: int| !mentions(pending@, v) by {}
            assert(closed_under_edges(adj, visited@));
            if list_reaches(adj, depends_on@, i as int) {
                let (k_found, s_found) = choose|k: int, steps: nat|
                    0 <= k < depends_on@.len() && #[trigger] reaches_in(
                        adj,
                        depends_on@[k] as int,
                        i as int,
                        steps,
                    );
                lemma_closed_set_holds_reached(adj, visited@, depends_on@[k_found] as int, i as int, s_found);
                assert(visited@[i as int]);
                assert(false);
            }
        }
        false
    }
}

} // verus!
