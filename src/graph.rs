use vstd::prelude::*;
use vstd::hash_map::StringHashMap;
use vstd::string::StringExecFns;
use crate::assoc::{find_key, keys_unique, lemma_get_unique, kv_get, kv_insert, kv_remove, lemma_find_key, lemma_find_key_is, lemma_find_key_prefix, lemma_insert_get, lemma_insert_unique, lemma_push_new, lemma_remove_get, lemma_unique_find, lemma_update_value};
use crate::doc::Doc;
use crate::edge::Edge;
use crate::errors::{EBError, EBResult};
use crate::node::Node;
use crate::text::str_eq;

verus! {

broadcast use vstd::hash_map::group_hash_map_axioms;

/// What to load from the graph, what to drop, and what to cache
/// specifically. The lists other than `case_to_file_paths`, `file_labels`,
/// `possible_associated_entites` and `index_file_extensions` are kept
/// verbatim for the collaborators that read them.
#[derive(Debug)]
pub struct CachingOptions {
    pub case_to_file_paths: Vec<Vec<String>>,
    pub redacted_but_not_suppressed: Vec<String>,
    pub differentiated_edges: Vec<(String, String, String)>,
    pub file_labels: Vec<String>,
    pub unindexed_by_property: Vec<(String, Vec<Doc>)>,
    pub omitted_projects: Vec<String>,
    pub index_file_extensions: Vec<String>,
    pub possible_associated_entites: Vec<String>,
    /// Regular-expression patterns, as written.
    pub supplement_regexes: Vec<String>,
}

impl CachingOptions {
    /// Options with every list empty.
    pub fn new() -> (r: CachingOptions)
        ensures
            r.case_to_file_paths@.len() == 0,
            r.redacted_but_not_suppressed@.len() == 0,
            r.differentiated_edges@.len() == 0,
            r.file_labels@.len() == 0,
            r.unindexed_by_property@.len() == 0,
            r.omitted_projects@.len() == 0,
            r.index_file_extensions@.len() == 0,
            r.possible_associated_entites@.len() == 0,
            r.supplement_regexes@.len() == 0,
    {
        CachingOptions {
            case_to_file_paths: Vec::new(),
            redacted_but_not_suppressed: Vec::new(),
            differentiated_edges: Vec::new(),
            file_labels: Vec::new(),
            unindexed_by_property: Vec::new(),
            omitted_projects: Vec::new(),
            index_file_extensions: Vec::new(),
            possible_associated_entites: Vec::new(),
            supplement_regexes: Vec::new(),
        }
    }
}

/// The edges between a node and one of its neighbors.
#[derive(Debug)]
pub struct Adjacent {
    pub dst_id: String,
    pub edges: Vec<Edge>,
}

/// An in-memory bidirectional labeled multigraph.
///
/// `nodes` owns every node; `adj[i]` lists, for the node `nodes[i]`, each
/// neighbor's id with the edges between the two, in insertion order; `index`
/// maps each node id to its position in `nodes`.
pub struct CachedGraph {
    pub nodes: Vec<Node>,
    pub adj: Vec<Vec<Adjacent>>,
    pub index: StringHashMap<usize>,
}

/// The neighbors of one node: each neighbor's id with the edges between them.
pub type AdjV = Seq<(Seq<char>, Seq<Edge>)>;

/// The mathematical value of a [`CachedGraph`].
pub ghost struct GraphView {
    pub nodes: Seq<Node>,
    pub adj: Seq<AdjV>,
}

pub open spec fn adj_view(l: Seq<Adjacent>) -> AdjV {
    l.map_values(|a: Adjacent| (a.dst_id@, a.edges@))
}

/// The nodes of `nodes`, each under its id.
pub open spec fn node_entries(nodes: Seq<Node>) -> Seq<(Seq<char>, Node)> {
    nodes.map_values(|n: Node| (n.id@, n))
}

/// The nodes of `nodes` whose label is one of `labels`, in order.
pub open spec fn labeled(nodes: Seq<Node>, labels: Seq<Seq<char>>) -> Seq<Node>
    decreases nodes.len(),
{
    if nodes.len() == 0 {
        nodes
    } else if labels.contains(nodes.last().label@) {
        labeled(nodes.drop_last(), labels).push(nodes.last())
    } else {
        labeled(nodes.drop_last(), labels)
    }
}

/// The nodes behind a sequence of references.
pub open spec fn derefs(s: Seq<&Node>) -> Seq<Node> {
    s.map_values(|n: &Node| *n)
}

/// The characters of each string.
pub open spec fn strings_view(s: Seq<String>) -> Seq<Seq<char>> {
    s.map_values(|x: String| x@)
}

/// Some node of `s` has id `id`.
pub open spec fn has_id(s: Seq<Node>, id: Seq<char>) -> bool {
    exists|i: int| 0 <= i < s.len() && #[trigger] s[i].id@ == id
}

/// `acc` with `n` appended unless a node with its id is already there.
pub open spec fn add_unique(acc: Seq<Node>, n: Node) -> Seq<Node> {
    if has_id(acc, n.id@) {
        acc
    } else {
        acc.push(n)
    }
}

/// `acc` with each node of `ns` added in turn by `add_unique`.
pub open spec fn add_all_unique(acc: Seq<Node>, ns: Seq<Node>) -> Seq<Node>
    decreases ns.len(),
{
    if ns.len() == 0 {
        acc
    } else {
        add_unique(add_all_unique(acc, ns.drop_last()), ns.last())
    }
}

/// `l` with `e` appended to the edges toward `dst`.
pub open spec fn list_add_edge(l: AdjV, dst: Seq<char>, e: Edge) -> AdjV {
    kv_insert(
        l,
        dst,
        match kv_get(l, dst) {
            Some(s) => s.push(e),
            None => seq![e],
        },
    )
}

impl GraphView {
    /// Position of the node with id `id`, or -1.
    pub open spec fn node_pos(self, id: Seq<char>) -> int {
        find_key(node_entries(self.nodes), id)
    }

    pub open spec fn has_node(self, id: Seq<char>) -> bool {
        self.node_pos(id) >= 0
    }

    pub open spec fn get_node(self, id: Seq<char>) -> Option<Node> {
        kv_get(node_entries(self.nodes), id)
    }

    /// The neighbor list of `id`; empty for an absent id.
    pub open spec fn adj_of(self, id: Seq<char>) -> AdjV {
        let i = self.node_pos(id);
        if 0 <= i < self.adj.len() {
            self.adj[i]
        } else {
            Seq::empty()
        }
    }

    /// The edges cached between `a` and `b`, if any entry holds them.
    pub open spec fn edges_between(self, a: Seq<char>, b: Seq<char>) -> Option<Seq<Edge>> {
        kv_get(self.adj_of(a), b)
    }

    /// The node with id `id` (meaningful where it is cached).
    pub open spec fn node_of(self, id: Seq<char>) -> Node {
        self.nodes[self.node_pos(id)]
    }

    /// The distinct neighbors of `id`, in adjacency order.
    pub open spec fn neighbors(self, id: Seq<char>) -> Seq<Node> {
        self.adj_of(id).map_values(|p: (Seq<char>, Seq<Edge>)| self.node_of(p.0))
    }

    /// The neighbors of `id` whose label is one of `labels`.
    pub open spec fn neighbors_labeled(self, id: Seq<char>, labels: Seq<Seq<char>>) -> Seq<Node> {
        labeled(self.neighbors(id), labels)
    }

    /// The walk along `path` over the first `k` of the neighbors `nbs`
    /// (those of the walk's current node labeled `path[0]`): for each
    /// neighbor, what the walk of the rest of the path from it collects, then
    /// the neighbor itself where the whole walk is collected or the path ends
    /// with it; each node is kept once, at its first sighting.
    pub open spec fn walk_fold(
        self,
        path: Seq<Seq<char>>,
        nbs: Seq<Node>,
        whole: bool,
        k: nat,
    ) -> Seq<Node>
        decreases path.len(), k,
    {
        if k == 0 || k > nbs.len() || path.len() == 0 {
            Seq::empty()
        } else {
            let acc = self.walk_fold(path, nbs, whole, (k - 1) as nat);
            let nb = nbs[k - 1];
            let rest = path.drop_first();
            let sub = if rest.len() == 0 {
                Seq::empty()
            } else {
                let nbs2 = self.neighbors_labeled(nb.id@, seq![rest[0]]);
                self.walk_fold(rest, nbs2, whole, nbs2.len())
            };
            let acc2 = add_all_unique(acc, sub);
            if whole || path.len() == 1 {
                add_unique(acc2, nb)
            } else {
                acc2
            }
        }
    }

    /// The nodes that `walk_path(id, path, whole)` collects.
    pub open spec fn walk(self, id: Seq<char>, path: Seq<Seq<char>>, whole: bool) -> Seq<Node> {
        if path.len() == 0 {
            Seq::empty()
        } else {
            let nbs = self.neighbors_labeled(id, seq![path[0]]);
            self.walk_fold(path, nbs, whole, nbs.len())
        }
    }

    /// The nodes that `walk_paths(id, paths, whole)` collects: the walks of
    /// the paths in order, each node kept once.
    pub open spec fn walks(self, id: Seq<char>, paths: Seq<Seq<Seq<char>>>, whole: bool) -> Seq<
        Node,
    >
        decreases paths.len(),
    {
        if paths.len() == 0 {
            Seq::empty()
        } else {
            add_all_unique(
                self.walks(id, paths.drop_last(), whole),
                self.walk(id, paths.last(), whole),
            )
        }
    }

    /// The graph with no node.
    pub open spec fn empty() -> GraphView {
        GraphView { nodes: Seq::empty(), adj: Seq::empty() }
    }

    /// The graph after adding each node of `ns` in turn.
    pub open spec fn add_nodes(self, ns: Seq<Node>) -> GraphView
        decreases ns.len(),
    {
        if ns.len() == 0 {
            self
        } else {
            self.add_nodes(ns.drop_last()).add_node(ns.last())
        }
    }

    /// The graph after adding each edge of `es` in turn.
    pub open spec fn add_edges(self, es: Seq<Edge>) -> GraphView
        decreases es.len(),
    {
        if es.len() == 0 {
            self
        } else {
            self.add_edges(es.drop_last()).add_edge(es.last())
        }
    }

    /// The graph after `add_node(n)`: a node with the same id is replaced in
    /// place, else `n` is appended with no neighbors.
    pub open spec fn add_node(self, n: Node) -> GraphView {
        if self.has_node(n.id@) {
            GraphView { nodes: self.nodes.update(self.node_pos(n.id@), n), adj: self.adj }
        } else {
            GraphView { nodes: self.nodes.push(n), adj: self.adj.push(Seq::empty()) }
        }
    }

    /// The graph after a successful `add_edge(e)`: `e` is appended to the
    /// edges from its source toward its destination and to those from its
    /// destination toward its source.
    pub open spec fn add_edge(self, e: Edge) -> GraphView {
        let i = self.node_pos(e.src_id@);
        let j = self.node_pos(e.dst_id@);
        let a1 = self.adj.update(i, list_add_edge(self.adj[i], e.dst_id@, e));
        GraphView { nodes: self.nodes, adj: a1.update(j, list_add_edge(a1[j], e.src_id@, e)) }
    }

    /// The graph after `remove_node(id)`: the node's edges are dropped from
    /// every neighbor list, and the last node takes the removed node's place.
    pub open spec fn remove_node(self, id: Seq<char>) -> GraphView {
        if !self.has_node(id) {
            self
        } else {
            let i = self.node_pos(id);
            let adj1 = self.adj.map_values(|l: AdjV| kv_remove(l, id));
            GraphView {
                nodes: self.nodes.update(i, self.nodes.last()).drop_last(),
                adj: adj1.update(i, adj1.last()).drop_last(),
            }
        }
    }

    /// Node ids appear once each, one neighbor list per node, neighbor ids
    /// appear once per list and are cached nodes, the adjacency is mirrored,
    /// and every edge joins the two nodes it is listed between.
    pub open spec fn wf(self) -> bool {
        &&& self.adj.len() == self.nodes.len()
        &&& keys_unique(node_entries(self.nodes))
        &&& forall|i: int| 0 <= i < self.adj.len() ==> #[trigger] keys_unique(self.adj[i])
        &&& forall|a: Seq<char>, b: Seq<char>| #[trigger]
            self.edges_between(a, b) is Some ==> self.has_node(b)
        &&& forall|a: Seq<char>, b: Seq<char>| #[trigger]
            self.edges_between(a, b) == self.edges_between(b, a)
        &&& forall|a: Seq<char>, b: Seq<char>, k: int|
            #![trigger self.edges_between(a, b)->Some_0[k]]
            self.edges_between(a, b) is Some && 0 <= k < self.edges_between(a, b)->Some_0.len()
                ==> edge_joins(self.edges_between(a, b)->Some_0[k], a, b)
    }
}

/// The edges between `e`'s endpoints once `e` is added: `e` is appended
/// once, or twice for a loop (it is listed from either side).
pub open spec fn pushed_edges(g: GraphView, e: Edge) -> Seq<Edge> {
    let base = match g.edges_between(e.src_id@, e.dst_id@) {
        Some(q) => q,
        None => Seq::empty(),
    };
    if e.src_id@ == e.dst_id@ {
        base.push(e).push(e)
    } else {
        base.push(e)
    }
}

/// Facts about node positions in a graph whose node ids are unique.
pub proof fn lemma_node_pos(g: GraphView, x: Seq<char>)
    requires
        keys_unique(node_entries(g.nodes)),
    ensures
        -1 <= g.node_pos(x) < g.nodes.len(),
        g.has_node(x) ==> g.nodes[g.node_pos(x)].id@ == x,
        g.has_node(x) ==> g.get_node(x) == Some(g.nodes[g.node_pos(x)]),
        !g.has_node(x) ==> g.get_node(x) is None,
        forall|i: int| 0 <= i < g.nodes.len() && g.nodes[i].id@ == x ==> g.node_pos(x) == i,
{
    let d = node_entries(g.nodes);
    lemma_find_key(d, x);
    if g.has_node(x) {
        assert(d[g.node_pos(x)] == (g.nodes[g.node_pos(x)].id@, g.nodes[g.node_pos(x)]));
    }
    assert forall|i: int| 0 <= i < g.nodes.len() && g.nodes[i].id@ == x implies g.node_pos(x) == i by {
        assert(d[i] == (g.nodes[i].id@, g.nodes[i]));
        lemma_unique_find(d, x, i);
    }
}

/// What `add_edge` does to the edges between any two ids.
pub proof fn lemma_add_edge_between(g: GraphView, e: Edge, x: Seq<char>, y: Seq<char>)
    requires
        g.wf(),
        g.has_node(e.src_id@),
        g.has_node(e.dst_id@),
    ensures
        g.add_edge(e).edges_between(x, y) == if (x == e.src_id@ && y == e.dst_id@) || (x
            == e.dst_id@ && y == e.src_id@) {
            Some(pushed_edges(g, e))
        } else {
            g.edges_between(x, y)
        },
        g.add_edge(e).has_node(x) == g.has_node(x),
{
    let s = e.src_id@;
    let d = e.dst_id@;
    let i = g.node_pos(s);
    let j = g.node_pos(d);
    let g2 = g.add_edge(e);
    let a1 = g.adj.update(i, list_add_edge(g.adj[i], d, e));
    lemma_node_pos(g, x);
    lemma_node_pos(g, s);
    lemma_node_pos(g, d);
    assert(g2.nodes == g.nodes);
    let px = g.node_pos(x);
    assert(g.edges_between(s, d) == g.edges_between(d, s));
    if px >= 0 {
        if px == i && px == j {
            assert(s == d);
            assert(g2.adj[px] == list_add_edge(list_add_edge(g.adj[i], d, e), s, e));
            lemma_insert_get(g.adj[i], d, match kv_get(g.adj[i], d) {
                Some(q) => q.push(e),
                None => seq![e],
            }, y);
            lemma_insert_get(g.adj[i], d, match kv_get(g.adj[i], d) {
                Some(q) => q.push(e),
                None => seq![e],
            }, s);
            let l1 = list_add_edge(g.adj[i], d, e);
            lemma_insert_get(l1, s, match kv_get(l1, s) {
                Some(q) => q.push(e),
                None => seq![e],
            }, y);
        } else if px == i {
            assert(x == s);
            assert(g2.adj[px] == a1[i]);
            lemma_insert_get(g.adj[i], d, match kv_get(g.adj[i], d) {
                Some(q) => q.push(e),
                None => seq![e],
            }, y);
        } else if px == j {
            assert(x == d);
            assert(a1[j] == g.adj[j]);
            lemma_insert_get(g.adj[j], s, match kv_get(g.adj[j], s) {
                Some(q) => q.push(e),
                None => seq![e],
            }, y);
        } else {
            assert(g2.adj[px] == g.adj[px]);
        }
    }
}

/// Where the nodes of a graph stand once `id` is removed.
pub proof fn lemma_remove_pos(g: GraphView, id: Seq<char>, k: Seq<char>)
    requires
        g.wf(),
        g.has_node(id),
    ensures
        keys_unique(node_entries(g.remove_node(id).nodes)),
        g.remove_node(id).node_pos(k) == if k == id {
            -1
        } else if g.node_pos(k) == g.nodes.len() - 1 {
            g.node_pos(id)
        } else {
            g.node_pos(k)
        },
{
    let i = g.node_pos(id);
    let last = g.nodes.len() - 1;
    let g2 = g.remove_node(id);
    let d = node_entries(g.nodes);
    let d2 = node_entries(g2.nodes);
    lemma_node_pos(g, id);
    lemma_node_pos(g, k);
    assert(d2.len() == last);
    assert forall|x: int| 0 <= x < d2.len() implies #[trigger] d2[x] == if x == i {
        d[last]
    } else {
        d[x]
    } by {}
    assert(keys_unique(d2)) by {
        assert forall|a: int, b: int| 0 <= a < b < d2.len() implies d2[a].0 != d2[b].0 by {
            let a1 = if a == i { last } else { a };
            let b1 = if b == i { last } else { b };
            assert(d2[a] == d[a1]);
            assert(d2[b] == d[b1]);
        }
    }
    let p = g.node_pos(k);
    if k == id {
        assert forall|x: int| 0 <= x < d2.len() implies d2[x].0 != k by {
            let x1 = if x == i { last } else { x };
            assert(d2[x] == d[x1]);
            assert(d[x1] == (g.nodes[x1].id@, g.nodes[x1]));
        }
        lemma_find_key_is(d2, k, -1);
    } else if p >= 0 {
        let p2 = if p == last { i } else { p };
        assert(d2[p2] == d[p]);
        assert(d[p] == (g.nodes[p].id@, g.nodes[p]));
        lemma_unique_find(d2, k, p2);
    } else {
        assert forall|x: int| 0 <= x < d2.len() implies d2[x].0 != k by {
            let x1 = if x == i { last } else { x };
            assert(d2[x] == d[x1]);
            assert(d[x1] == (g.nodes[x1].id@, g.nodes[x1]));
        }
        lemma_find_key_is(d2, k, -1);
    }
}

/// What `remove_node(id)` does to the edges between any two ids.
pub proof fn lemma_remove_between(g: GraphView, id: Seq<char>, a: Seq<char>, b: Seq<char>)
    requires
        g.wf(),
    ensures
        g.remove_node(id).edges_between(a, b) == if a == id || b == id {
            None
        } else {
            g.edges_between(a, b)
        },
        g.remove_node(id).has_node(a) == (g.has_node(a) && a != id),
{
    lemma_node_pos(g, a);
    if g.has_node(id) {
        let g2 = g.remove_node(id);
        let i = g.node_pos(id);
        let last = g.nodes.len() - 1;
        lemma_remove_pos(g, id, a);
        lemma_node_pos(g, id);
        if a != id && g.has_node(a) {
            let pa = g.node_pos(a);
            let p2 = if pa == last { i } else { pa };
            assert(g2.adj[p2] == kv_remove(g.adj[pa], id));
            lemma_remove_get(g.adj[pa], id, b);
        }
    }
}

/// Adding a node caches its id and keeps the others.
pub proof fn lemma_has_node_after_add_node(g: GraphView, n: Node, x: Seq<char>)
    requires
        g.wf(),
    ensures
        g.add_node(n).has_node(x) == (g.has_node(x) || x == n.id@),
{
    let d = node_entries(g.nodes);
    lemma_node_pos(g, n.id@);
    if g.has_node(n.id@) {
        let p = g.node_pos(n.id@);
        assert(node_entries(g.add_node(n).nodes) =~= d.update(p, (d[p].0, n)));
        lemma_update_value(d, p, n, x);
        lemma_update_value(d, p, n, n.id@);
    } else {
        assert(node_entries(g.add_node(n).nodes) =~= d.push((n.id@, n)));
        lemma_push_new(d, n.id@, n, x);
    }
}

/// The adjacency is mirrored: an edge listed from `a` toward `b` is listed
/// from `b` toward `a`, and conversely.
pub proof fn lemma_mirror(g: GraphView, a: Seq<char>, b: Seq<char>, e: Edge)
    requires
        g.wf(),
    ensures
        (g.edges_between(a, b) is Some && g.edges_between(a, b)->Some_0.contains(e)) <==> (
        g.edges_between(b, a) is Some && g.edges_between(b, a)->Some_0.contains(e)),
{
    assert(g.edges_between(a, b) == g.edges_between(b, a));
}

/// Both endpoints of every cached edge are cached nodes.
pub proof fn lemma_referential_closure(g: GraphView, a: Seq<char>, b: Seq<char>, k: int)
    requires
        g.wf(),
        g.edges_between(a, b) is Some,
        0 <= k < g.edges_between(a, b)->Some_0.len(),
    ensures
        g.has_node(g.edges_between(a, b)->Some_0[k].src_id@),
        g.has_node(g.edges_between(a, b)->Some_0[k].dst_id@),
{
    assert(g.edges_between(a, b) == g.edges_between(b, a));
    assert(g.has_node(b));
    assert(g.has_node(a));
    assert(edge_joins(g.edges_between(a, b)->Some_0[k], a, b));
}

/// Removing a node twice has the effect of removing it once.
pub proof fn lemma_remove_twice(g: GraphView, id: Seq<char>)
    requires
        g.wf(),
    ensures
        g.remove_node(id).remove_node(id) == g.remove_node(id),
{
    lemma_remove_between(g, id, id, id);
}

/// Adding a node and then another with the same id leaves one entry under
/// that id, the second node: as if only the second had been added.
pub proof fn lemma_add_node_twice(g: GraphView, n1: Node, n2: Node)
    requires
        g.wf(),
        n1.id@ == n2.id@,
    ensures
        g.add_node(n1).add_node(n2) == g.add_node(n2),
        g.add_node(n2).get_node(n2.id@) == Some(n2),
        forall|i: int, j: int|
            0 <= i < j < g.add_node(n2).nodes.len() ==> g.add_node(n2).nodes[i].id@ != g.add_node(
                n2,
            ).nodes[j].id@,
{
    let id = n1.id@;
    let d = node_entries(g.nodes);
    let g1 = g.add_node(n1);
    let g2 = g.add_node(n2);
    lemma_node_pos(g, id);
    if g.has_node(id) {
        let p = g.node_pos(id);
        assert(node_entries(g1.nodes) =~= d.update(p, (d[p].0, n1)));
        assert(node_entries(g2.nodes) =~= d.update(p, (d[p].0, n2)));
        lemma_update_value(d, p, n1, id);
        lemma_update_value(d, p, n2, id);
        assert(g1.add_node(n2).nodes =~= g2.nodes);
    } else {
        assert(node_entries(g1.nodes) =~= d.push((id, n1)));
        assert(node_entries(g2.nodes) =~= d.push((id, n2)));
        lemma_push_new(d, id, n1, id);
        lemma_push_new(d, id, n2, id);
        assert(g1.add_node(n2).nodes =~= g2.nodes);
    }
    let d2 = node_entries(g2.nodes);
    lemma_node_pos(g2, id);
    assert forall|i: int, j: int| 0 <= i < j < g2.nodes.len() implies g2.nodes[i].id@
        != g2.nodes[j].id@ by {
        assert(d2[i] == (g2.nodes[i].id@, g2.nodes[i]));
        assert(d2[j] == (g2.nodes[j].id@, g2.nodes[j]));
    }
}

/// A walk reads the graph only: walking twice gives the same nodes in the
/// same order.
pub proof fn lemma_walk_repeatable(
    g: GraphView,
    id: Seq<char>,
    path: Seq<Seq<char>>,
    whole: bool,
    r1: Seq<Node>,
    r2: Seq<Node>,
)
    requires
        r1 == g.walk(id, path, whole),
        r2 == g.walk(id, path, whole),
    ensures
        r1 == r2,
{
}

/// The walk of an empty path collects nothing.
pub proof fn lemma_walk_empty_path(g: GraphView, id: Seq<char>, whole: bool)
    ensures
        g.walk(id, Seq::empty(), whole) == Seq::<Node>::empty(),
{
}

/// `e` joins `a` and `b`, in one direction or the other.
pub open spec fn edge_joins(e: Edge, a: Seq<char>, b: Seq<char>) -> bool {
    (e.src_id@ == a && e.dst_id@ == b) || (e.src_id@ == b && e.dst_id@ == a)
}

/// Whether `label` is one of `labels`.
pub(crate) fn label_in(labels: &Vec<String>, label: &String) -> (r: bool)
    ensures
        r == strings_view(labels@).contains(label@),
{
    let ghost ls = strings_view(labels@);
    let mut i: usize = 0;
    while i < labels.len()
        invariant
            ls == strings_view(labels@),
            i <= labels@.len(),
            forall|x: int| 0 <= x < i ==> ls[x] != label@,
        decreases labels@.len() - i,
    {
        if str_eq(labels[i].as_str(), label.as_str()) {
            assert(ls[i as int] == label@);
            return true;
        }
        i = i + 1;
    }
    false
}

/// The nodes of `nodes` whose label is one of `labels`, in order.
fn filter_labeled<'a>(nodes: &Vec<&'a Node>, labels: &Vec<String>) -> (r: Vec<&'a Node>)
    ensures
        derefs(r@) == labeled(derefs(nodes@), strings_view(labels@)),
{
    let ghost ls = strings_view(labels@);
    let mut out: Vec<&'a Node> = Vec::new();
    let mut i: usize = 0;
    while i < nodes.len()
        invariant
            ls == strings_view(labels@),
            i <= nodes@.len(),
            derefs(out@) == labeled(derefs(nodes@).take(i as int), ls),
        decreases nodes@.len() - i,
    {
        let n = nodes[i];
        assert(derefs(nodes@).take(i + 1).drop_last() =~= derefs(nodes@).take(i as int));
        if label_in(labels, &n.label) {
            out.push(n);
            assert(derefs(out@) =~= labeled(derefs(nodes@).take(i as int), ls).push(*n));
        }
        i = i + 1;
    }
    assert(derefs(nodes@).take(nodes@.len() as int) =~= derefs(nodes@));
    out
}

/// Adds `n` to `out` unless a node with its id is there; `found` holds the
/// ids of `out`.
fn push_unique<'a>(out: &mut Vec<&'a Node>, found: &mut StringHashMap<bool>, n: &'a Node)
    requires
        forall|k: Seq<char>| #[trigger]
            old(found)@.contains_key(k) <==> has_id(derefs(old(out)@), k),
    ensures
        derefs(final(out)@) == add_unique(derefs(old(out)@), *n),
        forall|k: Seq<char>| #[trigger]
            final(found)@.contains_key(k) <==> has_id(derefs(final(out)@), k),
{
    let ghost before = derefs(out@);
    if !found.contains_key(n.id.as_str()) {
        out.push(n);
        found.insert(n.id.clone(), true);
        assert(derefs(out@) =~= before.push(*n));
        assert forall|k: Seq<char>| #[trigger]
            found@.contains_key(k) <==> has_id(derefs(out@), k) by {
            if has_id(derefs(out@), k) {
                let i = choose|i: int| 0 <= i < derefs(out@).len() && #[trigger] derefs(out@)[i].id@ == k;
                if i < before.len() {
                    assert(before[i] == derefs(out@)[i]);
                }
            }
            if has_id(before, k) {
                let i = choose|i: int| 0 <= i < before.len() && #[trigger] before[i].id@ == k;
                assert(derefs(out@)[i] == before[i]);
            }
            if k == n.id@ {
                assert(derefs(out@)[before.len() as int] == *n);
            }
        }
    }
}

/// Some entry among the first `t` of `l` is toward `y`.
pub open spec fn processed(l: AdjV, t: int, y: Seq<char>) -> bool {
    exists|q: int| 0 <= q < t && q < l.len() && #[trigger] l[q].0 == y
}

proof fn lemma_processed_step(l: AdjV, t: int, y: Seq<char>)
    requires
        0 <= t < l.len(),
    ensures
        processed(l, t + 1, y) == (processed(l, t, y) || l[t].0 == y),
{
    if processed(l, t + 1, y) && !(l[t].0 == y) {
        let q = choose|q: int| 0 <= q < t + 1 && q < l.len() && #[trigger] l[q].0 == y;
        assert(q < t);
    }
    if l[t].0 == y {
        assert(0 <= t < t + 1 && l[t].0 == y);
    }
}

/// The neighbor ids of a neighbor list, in order.
fn neighbor_ids(list: &Vec<Adjacent>) -> (r: Vec<String>)
    ensures
        strings_view(r@) == adj_view(list@).map_values(|p: (Seq<char>, Seq<Edge>)| p.0),
{
    let mut out: Vec<String> = Vec::new();
    let mut p: usize = 0;
    while p < list.len()
        invariant
            p <= list@.len(),
            strings_view(out@) =~= adj_view(list@).map_values(|q: (Seq<char>, Seq<Edge>)| q.0).take(
                p as int,
            ),
        decreases list@.len() - p,
    {
        let ghost before = strings_view(out@);
        out.push(list[p].dst_id.clone());
        assert(strings_view(out@) =~= before.push(list@[p as int].dst_id@));
        assert(adj_view(list@)[p as int].0 == list@[p as int].dst_id@);
        p = p + 1;
    }
    assert(adj_view(list@).map_values(|q: (Seq<char>, Seq<Edge>)| q.0).take(list@.len() as int)
        =~= adj_view(list@).map_values(|q: (Seq<char>, Seq<Edge>)| q.0));
    out
}

/// Position of the entry toward `dst` in a neighbor list.
fn adj_position(list: &Vec<Adjacent>, dst: &str) -> (r: Option<usize>)
    ensures
        match r {
            Some(p) => p < list@.len() && find_key(adj_view(list@), dst@) == p as int,
            None => find_key(adj_view(list@), dst@) == -1,
        },
{
    let ghost l = adj_view(list@);
    let mut p: usize = 0;
    while p < list.len()
        invariant
            l == adj_view(list@),
            p <= list@.len(),
            find_key(l.take(p as int), dst@) == -1,
        decreases list@.len() - p,
    {
        assert(l.take(p + 1).drop_last() =~= l.take(p as int));
        if str_eq(list[p].dst_id.as_str(), dst) {
            proof {
                lemma_find_key_prefix(l, p + 1, dst@);
            }
            return Some(p);
        }
        p = p + 1;
    }
    assert(l.take(l.len() as int) =~= l);
    None
}

/// Append `e` to the edges toward `dst`, adding an entry if there is none.
fn push_edge(list: &mut Vec<Adjacent>, dst: &String, e: Edge)
    ensures
        adj_view(final(list)@) == list_add_edge(adj_view(old(list)@), dst@, e),
{
    let ghost l = adj_view(list@);
    proof {
        lemma_find_key(l, dst@);
    }
    match adj_position(list, dst.as_str()) {
        Some(p) => {
            let mut entry = Adjacent { dst_id: String::new(), edges: Vec::new() };
            list.set_and_swap(p, &mut entry);
            entry.edges.push(e);
            list.set_and_swap(p, &mut entry);
            assert(adj_view(list@) =~= list_add_edge(l, dst@, e));
        },
        None => {
            let mut edges: Vec<Edge> = Vec::new();
            edges.push(e);
            list.push(Adjacent { dst_id: dst.clone(), edges });
            assert(adj_view(list@) =~= list_add_edge(l, dst@, e));
        },
    }
}

impl CachedGraph {
    pub open spec fn view(&self) -> GraphView {
        GraphView {
            nodes: self.nodes@,
            adj: self.adj@.map_values(|l: Vec<Adjacent>| adj_view(l@)),
        }
    }

    /// The view is well formed and `index` maps each node id to its position.
    pub open spec fn wf(&self) -> bool {
        &&& self.view().wf()
        &&& forall|k: Seq<char>| #[trigger]
            self.index@.contains_key(k) <==> self.view().has_node(k)
        &&& forall|k: Seq<char>| #[trigger]
            self.index@.contains_key(k) ==> self.index@[k] == self.view().node_pos(k)
    }

    /// Creates a new empty graph.
    pub fn new() -> (r: CachedGraph)
        ensures
            r.wf(),
            r.view() == GraphView::empty(),
    {
        let r = CachedGraph { nodes: Vec::new(), adj: Vec::new(), index: StringHashMap::new() };
        assert(node_entries(r.view().nodes) =~= Seq::empty());
        assert(r.view().nodes =~= Seq::empty());
        assert(r.view().adj =~= Seq::empty());
        assert forall|a: Seq<char>, b: Seq<char>| #[trigger]
            r.view().edges_between(a, b) == r.view().edges_between(b, a) by {
            lemma_find_key(node_entries(r.view().nodes), a);
            lemma_find_key(node_entries(r.view().nodes), b);
        }
        r
    }

    /// Idempotently add a node to the map of nodes: a node with the same id
    /// is replaced in place and keeps its edges.
    pub fn add_node(&mut self, node: Node)
        requires
            old(self).wf(),
        ensures
            final(self).wf(),
            final(self).view() == old(self).view().add_node(node),
    {
        let ghost g = self.view();
        let ghost id = node.id@;
        proof {
            lemma_node_pos(g, id);
        }
        match self.lookup(node.id.as_str()) {
            Some(i) => {
                self.nodes.set(i, node);
                let ghost g2 = self.view();
                proof {
                    assert(g2 =~= g.add_node(node));
                    let d = node_entries(g.nodes);
                    assert(node_entries(g2.nodes) =~= d.update(i as int, (d[i as int].0, node)));
                    lemma_update_value(d, i as int, node, id);
                    assert forall|k: Seq<char>| #[trigger] g2.node_pos(k) == g.node_pos(k) by {
                        lemma_update_value(d, i as int, node, k);
                    }
                    assert forall|a: Seq<char>, b: Seq<char>| #[trigger]
                        g2.edges_between(a, b) == g.edges_between(a, b) by {
                        assert(g2.node_pos(a) == g.node_pos(a));
                    }
                    assert forall|a: Seq<char>, b: Seq<char>| #[trigger]
                        g2.edges_between(a, b) == g2.edges_between(b, a) by {
                        assert(g2.edges_between(a, b) == g.edges_between(a, b));
                        assert(g2.edges_between(b, a) == g.edges_between(b, a));
                    }
                    assert forall|k: Seq<char>| #[trigger]
                        self.index@.contains_key(k) <==> g2.has_node(k) by {
                        assert(g2.node_pos(k) == g.node_pos(k));
                    }
                }
            },
            None => {
                let n = self.nodes.len();
                let k = node.id.clone();
                self.nodes.push(node);
                let fresh: Vec<Adjacent> = Vec::new();
                assert(adj_view(fresh@) =~= Seq::empty());
                self.adj.push(fresh);
                self.index.insert(k, n);
                let ghost g2 = self.view();
                proof {
                    let d = node_entries(g.nodes);
                    assert(node_entries(g2.nodes) =~= d.push((id, node)));
                    assert(g2.adj =~= g.adj.push(Seq::empty()));
                    assert(g2 =~= g.add_node(node));
                    lemma_push_new(d, id, node, id);
                    assert forall|k2: Seq<char>| #[trigger] g2.node_pos(k2) == if k2 == id {
                        n as int
                    } else {
                        g.node_pos(k2)
                    } by {
                        lemma_push_new(d, id, node, k2);
                    }
                    assert forall|a: Seq<char>| #[trigger] g2.adj_of(a) == g.adj_of(a) by {
                        assert(g2.node_pos(a) == if a == id {
                            n as int
                        } else {
                            g.node_pos(a)
                        });
                        lemma_node_pos(g, a);
                    }
                    assert forall|a: Seq<char>, b: Seq<char>| #[trigger]
                        g2.edges_between(a, b) == g.edges_between(a, b) by {
                        assert(g2.adj_of(a) == g.adj_of(a));
                    }
                    assert forall|a: Seq<char>, b: Seq<char>| #[trigger]
                        g2.edges_between(a, b) == g2.edges_between(b, a) by {
                        assert(g2.edges_between(a, b) == g.edges_between(a, b));
                        assert(g2.edges_between(b, a) == g.edges_between(b, a));
                    }
                    assert forall|a: Seq<char>, b: Seq<char>| #[trigger]
                        g2.edges_between(a, b) is Some implies g2.has_node(b) by {
                        assert(g2.edges_between(a, b) == g.edges_between(a, b));
                        assert(g2.node_pos(b) == if b == id {
                            n as int
                        } else {
                            g.node_pos(b)
                        });
                    }
                    assert forall|i: int| 0 <= i < g2.adj.len() implies #[trigger] keys_unique(
                        g2.adj[i],
                    ) by {
                        if i < g.adj.len() {
                            assert(g2.adj[i] == g.adj[i]);
                        } else {
                            assert(g2.adj[i] == Seq::<(Seq<char>, Seq<Edge>)>::empty());
                        }
                    }
                    assert forall|k2: Seq<char>| #[trigger]
                        self.index@.contains_key(k2) <==> g2.has_node(k2) by {
                        assert(g2.node_pos(k2) == if k2 == id {
                            n as int
                        } else {
                            g.node_pos(k2)
                        });
                    }
                    assert forall|k2: Seq<char>| #[trigger]
                        self.index@.contains_key(k2) implies self.index@[k2] == g2.node_pos(k2) by {
                        assert(g2.node_pos(k2) == if k2 == id {
                            n as int
                        } else {
                            g.node_pos(k2)
                        });
                    }
                }
            },
        }
    }

    /// Adds the edge to the graph in both directions, so that either
    /// endpoint finds it with one lookup. Fails when an endpoint is not a
    /// cached node.
    pub fn add_edge(&mut self, edge: Edge) -> (r: EBResult<()>)
        requires
            old(self).wf(),
        ensures
            final(self).wf(),
            r is Ok <==> old(self).view().has_node(edge.src_id@) && old(self).view().has_node(
                edge.dst_id@,
            ),
            r is Ok ==> final(self).view() == old(self).view().add_edge(edge),
            r is Err ==> final(self).view() == old(self).view() && r->Err_0 is ReferentialError,
    {
        let ghost g = self.view();
        let i = match self.lookup(edge.src_id.as_str()) {
            Some(i) => i,
            None => {
                return Err(
                    EBError::ReferentialError(
                        String::from_str("source id not in graph: ").concat(edge.src_id.as_str()),
                    ),
                );
            },
        };
        let j = match self.lookup(edge.dst_id.as_str()) {
            Some(j) => j,
            None => {
                return Err(
                    EBError::ReferentialError(
                        String::from_str("destination id not in graph: ").concat(
                            edge.dst_id.as_str(),
                        ),
                    ),
                );
            },
        };
        let e1 = edge.copy();
        let mut list: Vec<Adjacent> = Vec::new();
        self.adj.set_and_swap(i, &mut list);
        push_edge(&mut list, &edge.dst_id, e1);
        self.adj.set_and_swap(i, &mut list);
        let ghost a1 = self.adj@;
        let mut list2: Vec<Adjacent> = Vec::new();
        self.adj.set_and_swap(j, &mut list2);
        proof {
            assert(adj_view(list2@) == g.adj.update(i as int, list_add_edge(g.adj[i as int], edge.dst_id@, edge))[j as int]);
        }
        let src = edge.src_id.clone();
        push_edge(&mut list2, &src, edge);
        self.adj.set_and_swap(j, &mut list2);
        let ghost g2 = self.view();
        proof {
            assert(g2.adj =~= g.add_edge(edge).adj);
            assert(g2 =~= g.add_edge(edge));
            assert forall|a: Seq<char>, b: Seq<char>| #[trigger]
                g2.edges_between(a, b) == g2.edges_between(b, a) by {
                lemma_add_edge_between(g, edge, a, b);
                lemma_add_edge_between(g, edge, b, a);
            }
            assert forall|a: Seq<char>, b: Seq<char>| #[trigger]
                g2.edges_between(a, b) is Some implies g2.has_node(b) by {
                lemma_add_edge_between(g, edge, a, b);
                lemma_add_edge_between(g, edge, b, a);
            }
            assert forall|a: Seq<char>, b: Seq<char>, k: int|
                g2.edges_between(a, b) is Some && 0 <= k < g2.edges_between(a, b)->Some_0.len()
                implies edge_joins(#[trigger] g2.edges_between(a, b)->Some_0[k], a, b) by {
                lemma_add_edge_between(g, edge, a, b);
                if (a == edge.src_id@ && b == edge.dst_id@) || (a == edge.dst_id@ && b == edge.src_id@) {
                    let q = g.edges_between(edge.src_id@, edge.dst_id@);
                    if q is Some && k < q->Some_0.len() {
                        assert(g.edges_between(edge.src_id@, edge.dst_id@)->Some_0[k] == q->Some_0[k]);
                    }
                }
            }
            assert forall|x: int| 0 <= x < g2.adj.len() implies #[trigger] keys_unique(g2.adj[x]) by {
                let l0 = g.adj[i as int];
                lemma_insert_unique(l0, edge.dst_id@, match kv_get(l0, edge.dst_id@) {
                    Some(q) => q.push(edge),
                    None => seq![edge],
                });
                let a1v = g.adj.update(i as int, list_add_edge(l0, edge.dst_id@, edge));
                let l1 = a1v[j as int];
                lemma_insert_unique(l1, edge.src_id@, match kv_get(l1, edge.src_id@) {
                    Some(q) => q.push(edge),
                    None => seq![edge],
                });
            }
            assert forall|k: Seq<char>| #[trigger]
                self.index@.contains_key(k) <==> g2.has_node(k) by {
                lemma_add_edge_between(g, edge, k, k);
            }
        }
        Ok(())
    }

    /// Remove a node and every edge incident to it; returns the removed
    /// node.
    pub fn remove_node(&mut self, id: &String) -> (r: Option<Node>)
        requires
            old(self).wf(),
        ensures
            final(self).wf(),
            final(self).view() == old(self).view().remove_node(id@),
            r == old(self).view().get_node(id@),
    {
        let ghost g = self.view();
        proof {
            lemma_node_pos(g, id@);
        }
        let i = match self.lookup(id.as_str()) {
            Some(i) => i,
            None => {
                return None;
            },
        };
        let n = self.adj.len();
        let ghost own = g.adj[i as int];
        let nbrs = neighbor_ids(&self.adj[i]);
        assert(strings_view(nbrs@).len() == nbrs@.len());
        assert(own.len() == nbrs@.len());
        let mut t: usize = 0;
        while t < nbrs.len()
            invariant
                n == self.adj@.len(),
                n == g.adj.len(),
                i < n,
                g.wf(),
                g == old(self).view(),
                old(self).wf(),
                g.node_pos(id@) == i,
                own == g.adj[i as int],
                strings_view(nbrs@) == own.map_values(|p: (Seq<char>, Seq<Edge>)| p.0),
                own.len() == nbrs@.len(),
                self.nodes@ == g.nodes,
                self.index@ == old(self).index@,
                t <= nbrs@.len(),
                forall|x: int|
                    0 <= x < n ==> #[trigger] adj_view(self.adj@[x]@) == if processed(
                        own,
                        t as int,
                        g.nodes[x].id@,
                    ) {
                        kv_remove(g.adj[x], id@)
                    } else {
                        g.adj[x]
                    },
            decreases nbrs@.len() - t,
        {
            let ghost nb = own[t as int].0;
            assert(strings_view(nbrs@)[t as int] == nb);
            proof {
                lemma_get_unique(own, t as int);
                assert(g.adj_of(id@) == own);
                assert(g.edges_between(id@, nb) is Some);
                assert(g.has_node(nb));
                lemma_node_pos(g, nb);
            }
            let j = match self.lookup_in(&nbrs[t], Ghost(g)) {
                Some(j) => j,
                None => {
                    assert(false);
                    0
                },
            };
            let ghost before = self.adj@;
            let mut list: Vec<Adjacent> = Vec::new();
            self.adj.set_and_swap(j, &mut list);
            let ghost l0 = adj_view(list@);
            proof {
                lemma_find_key(l0, id@);
            }
            match adj_position(&list, id.as_str()) {
                Some(p) => {
                    let _ = list.remove(p);
                    assert(adj_view(list@) =~= kv_remove(l0, id@));
                },
                None => {
                    assert(adj_view(list@) =~= kv_remove(l0, id@));
                },
            }
            self.adj.set_and_swap(j, &mut list);
            proof {
                assert(g.nodes[j as int].id@ == nb);
                assert forall|x: int| 0 <= x < n implies #[trigger] adj_view(self.adj@[x]@) == if processed(
                    own,
                    t + 1,
                    g.nodes[x].id@,
                ) {
                    kv_remove(g.adj[x], id@)
                } else {
                    g.adj[x]
                } by {
                    lemma_processed_step(own, t as int, g.nodes[x].id@);
                    if x == j {
                        assert(processed(own, t + 1, g.nodes[x].id@));
                        if processed(own, t as int, g.nodes[x].id@) {
                            lemma_remove_get(g.adj[x], id@, id@);
                            lemma_find_key(kv_remove(g.adj[x], id@), id@);
                        }
                    } else {
                        assert(self.adj@[x] == before[x]);
                        if g.nodes[x].id@ == nb {
                            lemma_node_pos(g, nb);
                        }
                    }
                }
            }
            t = t + 1;
        }
        proof {
            assert forall|x: int| 0 <= x < n implies #[trigger] adj_view(self.adj@[x]@) == kv_remove(
                g.adj[x],
                id@,
            ) by {
                let y = g.nodes[x].id@;
                if !processed(own, nbrs@.len() as int, y) {
                    lemma_node_pos(g, y);
                    lemma_find_key(g.adj[x], id@);
                    if find_key(g.adj[x], id@) >= 0 {
                        assert(g.adj_of(y) == g.adj[x]);
                        assert(g.edges_between(y, id@) is Some);
                        assert(g.edges_between(id@, y) == g.edges_between(y, id@));
                        lemma_find_key(own, y);
                        assert(processed(own, nbrs@.len() as int, y)) by {
                            let q = find_key(own, y);
                            assert(own[q].0 == y);
                        }
                    }
                }
            }
        }
        let removed = self.nodes.swap_remove(i);
        let _ = self.adj.swap_remove(i);
        self.index.remove(id.as_str());
        if i < self.nodes.len() {
            let moved = self.nodes[i].id.clone();
            self.index.insert(moved, i);
        }
        let ghost g2 = self.view();
        proof {
            let adj1 = g.adj.map_values(|l: AdjV| kv_remove(l, id@));
            assert(g2.adj =~= adj1.update(i as int, adj1.last()).drop_last());
            assert(g2 =~= g.remove_node(id@));
            lemma_remove_pos(g, id@, id@);
            assert forall|a: Seq<char>, b: Seq<char>| #[trigger]
                g2.edges_between(a, b) == g2.edges_between(b, a) by {
                lemma_remove_between(g, id@, a, b);
                lemma_remove_between(g, id@, b, a);
            }
            assert forall|a: Seq<char>, b: Seq<char>| #[trigger]
                g2.edges_between(a, b) is Some implies g2.has_node(b) by {
                lemma_remove_between(g, id@, a, b);
                lemma_remove_between(g, id@, b, b);
            }
            assert forall|a: Seq<char>, b: Seq<char>, k: int|
                g2.edges_between(a, b) is Some && 0 <= k < g2.edges_between(a, b)->Some_0.len()
                implies edge_joins(#[trigger] g2.edges_between(a, b)->Some_0[k], a, b) by {
                lemma_remove_between(g, id@, a, b);
            }
            assert forall|x: int| 0 <= x < g2.adj.len() implies #[trigger] keys_unique(g2.adj[x]) by {
                let x1 = if x == i { n - 1 } else { x };
                assert(g2.adj[x] == kv_remove(g.adj[x1], id@));
                lemma_remove_get(g.adj[x1], id@, id@);
            }
            assert forall|k: Seq<char>| #[trigger]
                self.index@.contains_key(k) <==> g2.has_node(k) by {
                lemma_remove_pos(g, id@, k);
                lemma_node_pos(g, k);
                if i < n - 1 {
                    lemma_node_pos(g, g.nodes[n - 1].id@);
                }
            }
            assert forall|k: Seq<char>| #[trigger]
                self.index@.contains_key(k) implies self.index@[k] == g2.node_pos(k) by {
                lemma_remove_pos(g, id@, k);
                lemma_node_pos(g, k);
                if i < n - 1 {
                    lemma_node_pos(g, g.nodes[n - 1].id@);
                }
            }
        }
        Some(removed)
    }

    /// Returns every node whose label is one of `labels`, in node order.
    pub fn nodes_labeled(&self, labels: &Vec<String>) -> (r: Vec<&Node>)
        ensures
            derefs(r@) == labeled(self.nodes@, strings_view(labels@)),
    {
        let ghost ls = strings_view(labels@);
        let mut out: Vec<&Node> = Vec::new();
        let mut i: usize = 0;
        while i < self.nodes.len()
            invariant
                ls == strings_view(labels@),
                i <= self.nodes@.len(),
                derefs(out@) == labeled(self.nodes@.take(i as int), ls),
            decreases self.nodes@.len() - i,
        {
            let n = &self.nodes[i];
            assert(self.nodes@.take(i + 1).drop_last() =~= self.nodes@.take(i as int));
            if label_in(labels, &n.label) {
                out.push(n);
                assert(derefs(out@) =~= labeled(self.nodes@.take(i as int), ls).push(*n));
            }
            i = i + 1;
        }
        assert(self.nodes@.take(self.nodes@.len() as int) =~= self.nodes@);
        out
    }

    /// Returns the distinct nodes adjacent to the node with the given `id`
    /// (none for an absent id).
    pub fn neighbors(&self, id: &String) -> (r: Vec<&Node>)
        requires
            self.wf(),
        ensures
            derefs(r@) == self.view().neighbors(id@),
    {
        let ghost g = self.view();
        let mut out: Vec<&Node> = Vec::new();
        match self.lookup(id.as_str()) {
            None => {
                assert(derefs(out@) =~= g.neighbors(id@));
                out
            },
            Some(i) => {
                let list = &self.adj[i];
                let ghost l = adj_view(list@);
                assert(l == g.adj_of(id@));
                let mut p: usize = 0;
                while p < list.len()
                    invariant
                        self.wf(),
                        g == self.view(),
                        l == adj_view(list@),
                        l == g.adj_of(id@),
                        p <= list@.len(),
                        derefs(out@) =~= g.neighbors(id@).take(p as int),
                    decreases list@.len() - p,
                {
                    let ghost dst = list@[p as int].dst_id@;
                    assert(l[p as int].0 == dst);
                    proof {
                        assert(g.edges_between(id@, dst) is Some) by {
                            lemma_get_unique(l, p as int);
                        }
                        lemma_node_pos(g, dst);
                    }
                    let k = match self.lookup(list[p].dst_id.as_str()) {
                        Some(k) => k,
                        None => {
                            assert(false);
                            0
                        },
                    };
                    let ghost before = derefs(out@);
                    out.push(&self.nodes[k]);
                    assert(g.neighbors(id@)[p as int] == g.node_of(dst));
                    assert(self.nodes@[k as int] == g.node_of(dst));
                    assert(derefs(out@) =~= before.push(self.nodes@[k as int]));
                    assert(g.neighbors(id@).take(p + 1) =~= g.neighbors(id@).take(p as int).push(g.neighbors(id@)[p as int]));
                    assert(derefs(out@) =~= g.neighbors(id@).take(p + 1));
                    p = p + 1;
                }
                out
            },
        }
    }

    /// Returns the distinct neighbors of the node with the given `id` whose
    /// label is one of `labels`.
    pub fn neighbors_labeled(&self, id: &String, labels: &Vec<String>) -> (r: Vec<&Node>)
        requires
            self.wf(),
        ensures
            derefs(r@) == self.view().neighbors_labeled(id@, strings_view(labels@)),
    {
        let all = self.neighbors(id);
        filter_labeled(&all, labels)
    }

    /// The walk along `path[start..]` from the node with id `node_id`.
    fn walk_from(&self, node_id: &String, path: &[String], start: usize, whole: bool) -> (r: Vec<
        &Node,
    >)
        requires
            self.wf(),
            start <= path@.len(),
        ensures
            derefs(r@) == self.view().walk(
                node_id@,
                strings_view(path@).subrange(start as int, path@.len() as int),
                whole,
            ),
        decreases path@.len() - start,
    {
        let ghost g = self.view();
        let ghost pv = strings_view(path@).subrange(start as int, path@.len() as int);
        let mut out: Vec<&Node> = Vec::new();
        if start >= path.len() {
            assert(derefs(out@) =~= g.walk(node_id@, pv, whole));
            return out;
        }
        let mut labels: Vec<String> = Vec::new();
        labels.push(path[start].clone());
        assert(strings_view(labels@) =~= seq![pv[0]]);
        let nbs = self.neighbors_labeled(node_id, &labels);
        let next = start + 1;
        let ghost nv = derefs(nbs@);
        let mut found: StringHashMap<bool> = StringHashMap::new();
        let mut k: usize = 0;
        while k < nbs.len()
            invariant
                self.wf(),
                g == self.view(),
                start < path@.len(),
                next == start + 1,
                pv == strings_view(path@).subrange(start as int, path@.len() as int),
                nv == derefs(nbs@),
                nv == g.neighbors_labeled(node_id@, seq![pv[0]]),
                k <= nbs@.len(),
                derefs(out@) == g.walk_fold(pv, nv, whole, k as nat),
                forall|x: Seq<char>| #[trigger] found@.contains_key(x) <==> has_id(derefs(out@), x),
            decreases nbs@.len() - k,
        {
            let nb = nbs[k];
            assert(nv[k as int] == *nb);
            let sub = self.walk_from(&nb.id, path, next, whole);
            let ghost rest = strings_view(path@).subrange(start + 1, path@.len() as int);
            assert(rest =~= pv.drop_first());
            let ghost acc = derefs(out@);
            let mut t: usize = 0;
            while t < sub.len()
                invariant
                    t <= sub@.len(),
                    derefs(out@) == add_all_unique(acc, derefs(sub@).take(t as int)),
                    forall|x: Seq<char>| #[trigger] found@.contains_key(x) <==> has_id(derefs(out@), x),
                decreases sub@.len() - t,
            {
                assert(derefs(sub@).take(t + 1).drop_last() =~= derefs(sub@).take(t as int));
                assert(derefs(sub@).take(t + 1).last() == *sub@[t as int]);
                push_unique(&mut out, &mut found, sub[t]);
                t = t + 1;
            }
            assert(derefs(sub@).take(sub@.len() as int) =~= derefs(sub@));
            if whole || next == path.len() {
                push_unique(&mut out, &mut found, nb);
            }
            k = k + 1;
        }
        out
    }

    /// Walks `path` from the node with id `node_id`: at each depth, the
    /// neighbors labeled with that depth's label. With `whole`, every node met
    /// is collected; otherwise only those reached at the final depth. Each
    /// node is collected once, in order of first sighting.
    pub fn walk_path(&self, node_id: &String, path: &[String], whole: bool) -> (r: Vec<&Node>)
        requires
            self.wf(),
        ensures
            derefs(r@) == self.view().walk(node_id@, strings_view(path@), whole),
            path@.len() == 0 ==> r@.len() == 0,
    {
        assert(strings_view(path@).subrange(0, path@.len() as int) =~= strings_view(path@));
        let r = self.walk_from(node_id, path, 0, whole);
        assert(derefs(r@).len() == r@.len());
        r
    }

    /// The walks of each path of `paths` from the node with id `node_id`,
    /// each node collected once.
    pub fn walk_paths(&self, node_id: &String, paths: &Vec<Vec<String>>, whole: bool) -> (r: Vec<
        &Node,
    >)
        requires
            self.wf(),
        ensures
            derefs(r@) == self.view().walks(
                node_id@,
                paths@.map_values(|p: Vec<String>| strings_view(p@)),
                whole,
            ),
    {
        let ghost g = self.view();
        let ghost ps = paths@.map_values(|p: Vec<String>| strings_view(p@));
        let mut out: Vec<&Node> = Vec::new();
        let mut found: StringHashMap<bool> = StringHashMap::new();
        let mut i: usize = 0;
        assert(ps.take(0) =~= Seq::<Seq<Seq<char>>>::empty());
        while i < paths.len()
            invariant
                self.wf(),
                g == self.view(),
                ps == paths@.map_values(|p: Vec<String>| strings_view(p@)),
                i <= paths@.len(),
                derefs(out@) == g.walks(node_id@, ps.take(i as int), whole),
                forall|x: Seq<char>| #[trigger] found@.contains_key(x) <==> has_id(derefs(out@), x),
            decreases paths@.len() - i,
        {
            let sub = self.walk_path(node_id, paths[i].as_slice(), whole);
            assert(ps.take(i + 1).drop_last() =~= ps.take(i as int));
            assert(ps.take(i + 1).last() == strings_view(paths@[i as int]@));
            let ghost acc = derefs(out@);
            let mut t: usize = 0;
            while t < sub.len()
                invariant
                    t <= sub@.len(),
                    derefs(out@) == add_all_unique(acc, derefs(sub@).take(t as int)),
                    forall|x: Seq<char>| #[trigger] found@.contains_key(x) <==> has_id(derefs(out@), x),
                decreases sub@.len() - t,
            {
                assert(derefs(sub@).take(t + 1).drop_last() =~= derefs(sub@).take(t as int));
                assert(derefs(sub@).take(t + 1).last() == *sub@[t as int]);
                push_unique(&mut out, &mut found, sub[t]);
                t = t + 1;
            }
            assert(derefs(sub@).take(sub@.len() as int) =~= derefs(sub@));
            i = i + 1;
        }
        assert(ps.take(paths@.len() as int) =~= ps);
        out
    }

    /// The graph of the given node rows and edge rows: every node is added,
    /// then every edge. Fails on the first edge with an endpoint that is not
    /// one of the nodes.
    pub fn from_tables(nodes: Vec<Node>, edges: Vec<Edge>) -> (r: EBResult<CachedGraph>)
        ensures
            r is Ok <==> forall|k: int|
                0 <= k < edges@.len() ==> GraphView::empty().add_nodes(nodes@).has_node(
                    #[trigger] edges@[k].src_id@,
                ) && GraphView::empty().add_nodes(nodes@).has_node(edges@[k].dst_id@),
            r is Ok ==> r->Ok_0.wf() && r->Ok_0.view() == GraphView::empty().add_nodes(
                nodes@,
            ).add_edges(edges@),
            r is Err ==> r->Err_0 is ReferentialError,
    {
        let ghost ns = nodes@;
        let ghost es = edges@;
        let mut graph = CachedGraph::new();
        let mut pending = nodes;
        let n = pending.len();
        let mut i: usize = 0;
        while i < n
            invariant
                n == ns.len(),
                i <= n,
                pending@.len() == n,
                forall|t: int| i <= t < n ==> pending@[t] == ns[t],
                graph.wf(),
                graph.view() == GraphView::empty().add_nodes(ns.take(i as int)),
            decreases n - i,
        {
            let mut slot = Node {
                id: String::new(),
                label: String::new(),
                props: Doc::new(),
                sysan: Doc::new(),
                acl: Vec::new(),
            };
            pending.set_and_swap(i, &mut slot);
            assert(ns.take(i + 1).drop_last() =~= ns.take(i as int));
            graph.add_node(slot);
            i = i + 1;
        }
        assert(ns.take(n as int) =~= ns);
        let ghost g0 = graph.view();
        let mut k: usize = 0;
        while k < edges.len()
            invariant
                es == edges@,
                ns == nodes@,
                g0 == GraphView::empty().add_nodes(ns),
                k <= edges@.len(),
                graph.wf(),
                forall|x: Seq<char>| #[trigger] graph.view().has_node(x) == g0.has_node(x),
                forall|t: int| 0 <= t < k ==> g0.has_node(#[trigger] es[t].src_id@) && g0.has_node(es[t].dst_id@),
                graph.view() == g0.add_edges(es.take(k as int)),
            decreases edges@.len() - k,
        {
            let e = edges[k].copy();
            assert(es.take(k + 1).drop_last() =~= es.take(k as int));
            let ghost before = graph.view();
            assert(before.has_node(es[k as int].src_id@) == g0.has_node(es[k as int].src_id@));
            assert(before.has_node(es[k as int].dst_id@) == g0.has_node(es[k as int].dst_id@));
            match graph.add_edge(e) {
                Ok(()) => {
                    proof {
                        assert(g0.has_node(es[k as int].src_id@) && g0.has_node(es[k as int].dst_id@));
                        assert forall|t: int| 0 <= t < k + 1 implies g0.has_node(
                            #[trigger] es[t].src_id@,
                        ) && g0.has_node(es[t].dst_id@) by {
                            if t == k {
                                assert(g0.has_node(es[k as int].src_id@));
                            }
                        }
                        assert forall|x: Seq<char>| #[trigger] graph.view().has_node(x) == g0.has_node(x) by {
                            lemma_add_edge_between(before, es[k as int], x, x);
                        }
                    }
                },
                Err(err) => {
                    assert(!(GraphView::empty().add_nodes(ns).has_node(edges@[k as int].src_id@)
                        && GraphView::empty().add_nodes(ns).has_node(edges@[k as int].dst_id@)));
                    return Err(err);
                },
            }
            k = k + 1;
        }
        assert(es.take(edges@.len() as int) =~= es);
        Ok(graph)
    }

    /// Position of the node with id `id` while the neighbor lists are being
    /// rewritten: nodes and index still describe `g`.
    fn lookup_in(&self, id: &str, Ghost(g): Ghost<GraphView>) -> (r: Option<usize>)
        requires
            g.wf(),
            self.nodes@ == g.nodes,
            forall|k: Seq<char>| #[trigger] self.index@.contains_key(k) <==> g.has_node(k),
            forall|k: Seq<char>| #[trigger]
                self.index@.contains_key(k) ==> self.index@[k] == g.node_pos(k),
        ensures
            match r {
                Some(i) => i < self.nodes@.len() && g.node_pos(id@) == i as int,
                None => !g.has_node(id@),
            },
    {
        proof {
            lemma_find_key(node_entries(g.nodes), id@);
        }
        match self.index.get(id) {
            Some(i) => Some(*i),
            None => None,
        }
    }

    /// Position of the node with id `id`.
    fn lookup(&self, id: &str) -> (r: Option<usize>)
        requires
            self.wf(),
        ensures
            match r {
                Some(i) => i < self.nodes@.len() && self.view().node_pos(id@) == i as int,
                None => !self.view().has_node(id@),
            },
    {
        proof {
            lemma_find_key(node_entries(self.nodes@), id@);
        }
        match self.index.get(id) {
            Some(i) => Some(*i),
            None => None,
        }
    }

    /// Returns a reference to a node given its id.
    pub fn get_node(&self, id: &String) -> (r: Option<&Node>)
        requires
            self.wf(),
        ensures
            match r {
                Some(n) => self.view().get_node(id@) == Some(*n),
                None => self.view().get_node(id@) is None,
            },
    {
        match self.lookup(id.as_str()) {
            Some(i) => {
                assert(node_entries(self.nodes@)[i as int] == (self.nodes@[i as int].id@, self.nodes@[i as int]));
                Some(&self.nodes[i])
            },
            None => None,
        }
    }

    /// Returns the edges between the given nodes, in insertion order
    /// (agnostic of direction).
    pub fn get_edges(&self, src_id: &String, dst_id: &String) -> (r: Option<&Vec<Edge>>)
        requires
            self.wf(),
        ensures
            match r {
                Some(v) => self.view().edges_between(src_id@, dst_id@) == Some(v@),
                None => self.view().edges_between(src_id@, dst_id@) is None,
            },
    {
        match self.lookup(src_id.as_str()) {
            Some(i) => {
                let list = &self.adj[i];
                assert(adj_view(list@) == self.view().adj_of(src_id@));
                match adj_position(list, dst_id.as_str()) {
                    Some(p) => {
                        assert(adj_view(list@)[p as int] == (list@[p as int].dst_id@, list@[p as int].edges@));
                        Some(&list[p].edges)
                    },
                    None => None,
                }
            },
            None => None,
        }
    }
}

} // verus!
