//! The label graph: nodes identified by a `(name, kind)` pair, directed
//! edges carrying one label per `(from, to)` pair.
//!
//! Node identities are kept in a bidirectional map of the `bimap` crate so
//! that lookups run in both directions: index to identity for rendering,
//! identity to index for deduplicating insertions.

use vstd::prelude::*;

verus! {

/// A node index.
pub type Nd = usize;

/// An edge, as a pair of node indices `(from, to)`.
pub type Ed = (Nd, Nd);

/// Adjacency of one node. Both lists keep insertion order; duplicates are
/// allowed (several edges between the same endpoints are legal).
pub struct NodeData {
    pub outgoing: Vec<usize>,
    pub incoming: Vec<usize>,
}

/// The mathematical content of one node: its outgoing and incoming lists.
#[verifier::ext_equal]
pub struct NodeView {
    pub outgoing: Seq<usize>,
    pub incoming: Seq<usize>,
}

impl View for NodeData {
    type V = NodeView;

    open spec fn view(&self) -> NodeView {
        NodeView { outgoing: self.outgoing@, incoming: self.incoming@ }
    }
}

/// The mathematical content of a graph: a dense sequence of nodes, a map
/// from node index to identity, and a map from edge to its label.
#[verifier::ext_equal]
pub struct GraphView {
    pub nodes: Seq<NodeView>,
    pub labels: Map<int, (Seq<char>, bool)>,
    pub edge_labels: Map<(int, int), Seq<char>>,
}

// ---------------------------------------------------------------------------
// Trusted interface to bimap::BiMap, the bidirectional identity <-> index map.
// ---------------------------------------------------------------------------

#[verifier::external_type_specification]
#[verifier::external_body]
#[verifier::reject_recursive_types(L)]
#[verifier::reject_recursive_types(R)]
#[verifier::reject_recursive_types(LS)]
#[verifier::reject_recursive_types(RS)]
pub struct ExBiHashMap<L, R, LS, RS>(bimap::BiHashMap<L, R, LS, RS>);

/// The identity map type of the `bimap` crate, from node index to identity.
pub type NodeLabels = bimap::BiMap<usize, (String, bool)>;

/// What the index map holds: a map from node index to `(name, kind)`.
pub uninterp spec fn node_index_view(m: NodeLabels) -> Map<int, (Seq<char>, bool)>;

/// The empty identity map.
pub open spec fn no_labels() -> Map<int, (Seq<char>, bool)> {
    Map::empty()
}

/// The identity map after a bimap insertion: the pair `left -> right` is
/// present, and any pair that held `right` under another key is gone.
pub open spec fn labels_overwrite(
    m: Map<int, (Seq<char>, bool)>,
    left: int,
    right: (Seq<char>, bool),
) -> Map<int, (Seq<char>, bool)> {
    Map::new(
        |k: int| k == left || (m.dom().contains(k) && m[k] !== right),
        |k: int|
            if k == left {
                right
            } else {
                m[k]
            },
    )
}

/// Relies on bimap::BiHashMap::new: the new map holds no pair.
#[verifier::external_body]
fn bimap_new() -> (res: NodeLabels)
    ensures
        node_index_view(res) == no_labels(),
{
    bimap::BiMap::new()
}

/// Relies on bimap::BiHashMap::insert: the pair is added, and any pair that
/// shares its left value or its right value is removed first.
#[verifier::external_body]
fn bimap_insert(m: &mut NodeLabels, left: usize, right: (String, bool))
    ensures
        node_index_view(*final(m)) == labels_overwrite(
            node_index_view(*old(m)),
            left as int,
            (right.0@, right.1),
        ),
{
    m.insert(left, right);
}

/// Relies on bimap::BiHashMap::get_by_right: returns the left value of the
/// pair holding this right value, and None exactly when no pair holds it.
#[verifier::external_body]
fn bimap_get_by_right(m: &NodeLabels, right: &(String, bool)) -> (r: Option<usize>)
    ensures
        match r {
            Some(i) => node_index_view(*m).dom().contains(i as int) && node_index_view(*m)[
                i as int
            ] === (right.0@, right.1),
            None => forall|k: int|
                node_index_view(*m).dom().contains(k) ==> node_index_view(*m)[k] !== (
                right.0@,
                right.1,
                ),
        },
{
    m.get_by_right(right).copied()
}

/// Relies on bimap::BiHashMap::get_by_left: returns (a clone of) the right
/// value of the pair holding this left value, and None exactly when no pair
/// holds it.
#[verifier::external_body]
fn bimap_get_by_left(m: &NodeLabels, left: usize) -> (r: Option<(String, bool)>)
    ensures
        match r {
            Some(v) => node_index_view(*m).dom().contains(left as int) && node_index_view(*m)[
                left as int
            ] === (v.0@, v.1),
            None => !node_index_view(*m).dom().contains(left as int),
        },
{
    m.get_by_left(&left).cloned()
}

// ---------------------------------------------------------------------------
// The graph itself.
// ---------------------------------------------------------------------------

/// The label graph.
pub struct Graph {
    pub node_data: Vec<NodeData>,
    node_labels: NodeLabels,
    edge_labels: Vec<(Ed, String)>,
}

/// The empty edge-label map.
pub open spec fn no_edge_labels() -> Map<(int, int), Seq<char>> {
    Map::empty()
}

/// The edge-label map described by a list of insertions: a later entry for
/// the same edge overwrites an earlier one.
pub open spec fn edge_label_map(s: Seq<(Ed, String)>) -> Map<(int, int), Seq<char>>
    decreases s.len(),
{
    if s.len() == 0 {
        Map::empty()
    } else {
        edge_label_map(s.drop_last()).insert(
            (s.last().0.0 as int, s.last().0.1 as int),
            s.last().1@,
        )
    }
}

impl View for Graph {
    type V = GraphView;

    closed spec fn view(&self) -> GraphView {
        GraphView {
            nodes: Seq::new(self.node_data@.len(), |i: int| self.node_data@[i]@),
            labels: node_index_view(self.node_labels),
            edge_labels: edge_label_map(self.edge_labels@),
        }
    }
}

impl GraphView {
    /// Every index below the node count is labeled, no other index is,
    /// identities are unique, and every edge endpoint is a valid index.
    pub open spec fn wf(self) -> bool {
        &&& forall|k: int|
            self.labels.dom().contains(k) <==> 0 <= k < self.nodes.len()
        &&& forall|i: int, j: int|
            self.labels.dom().contains(i) && self.labels.dom().contains(j) && self.labels[i]
                === self.labels[j] ==> i == j
        &&& forall|i: int, j: int|
            0 <= i < self.nodes.len() && 0 <= j < self.nodes[i].outgoing.len()
                ==> #[trigger] self.nodes[i].outgoing[j] < self.nodes.len()
        &&& forall|i: int, j: int|
            0 <= i < self.nodes.len() && 0 <= j < self.nodes[i].incoming.len()
                ==> #[trigger] self.nodes[i].incoming[j] < self.nodes.len()
        &&& forall|i: int, j: int|
            0 <= i < self.nodes.len() && 0 <= j < self.nodes[i].outgoing.len()
                ==> self.edge_labels.dom().contains(
                (i, #[trigger] self.nodes[i].outgoing[j] as int),
            )
    }

    /// Whether some node carries this identity.
    pub open spec fn has_label(self, label: (Seq<char>, bool)) -> bool {
        exists|k: int| self.labels.dom().contains(k) && self.labels[k] === label
    }

    /// The index of the node carrying this identity.
    pub open spec fn index_of(self, label: (Seq<char>, bool)) -> int {
        choose|k: int| self.labels.dom().contains(k) && self.labels[k] === label
    }
}

impl Graph {
    /// An empty graph.
    pub fn new() -> (g: Graph)
        ensures
            g@.wf(),
            g@.nodes === Seq::<NodeView>::empty(),
            g@.labels === no_labels(),
            g@.edge_labels === no_edge_labels(),
    {
        let g = Graph {
            node_data: Vec::new(),
            node_labels: bimap_new(),
            edge_labels: Vec::new(),
        };
        proof {
            assert(g@.nodes =~= Seq::<NodeView>::empty());
        }
        g
    }

    /// The number of nodes.
    pub fn len(&self) -> (n: usize)
        ensures
            n == self@.nodes.len(),
    {
        self.node_data.len()
    }

    /// Appends a fresh node carrying `label` and returns its index. The
    /// caller must make sure the identity is not yet present (identities are
    /// unique); `find_or_add_vertex` is the checked insertion path.
    pub fn add_vertex(&mut self, label: (String, bool)) -> (idx: Nd)
        requires
            old(self)@.wf(),
            !old(self)@.has_label((label.0@, label.1)),
        ensures
            final(self)@.wf(),
            idx == old(self)@.nodes.len(),
            final(self)@.nodes === old(self)@.nodes.push(
                NodeView { outgoing: Seq::empty(), incoming: Seq::empty() },
            ),
            final(self)@.labels === old(self)@.labels.insert(idx as int, (label.0@, label.1)),
            final(self)@.edge_labels === old(self)@.edge_labels,
    {
        let new_idx = self.node_data.len();
        let ghost pre = self@;
        self.node_data.push(NodeData { outgoing: Vec::new(), incoming: Vec::new() });
        bimap_insert(&mut self.node_labels, new_idx, label);
        proof {
            assert(self@.nodes =~= pre.nodes.push(
                NodeView { outgoing: Seq::empty(), incoming: Seq::empty() },
            ));
            assert(self@.labels =~= pre.labels.insert(new_idx as int, (label.0@, label.1)));
        }
        new_idx
    }

    /// The index of the node carrying `label`, if one does.
    pub fn find_vertex(&self, label: &(String, bool)) -> (r: Option<Nd>)
        requires
            self@.wf(),
        ensures
            match r {
                Some(i) => self@.has_label((label.0@, label.1)) && 0 <= i < self@.nodes.len()
                    && self@.labels[i as int] === (label.0@, label.1),
                None => !self@.has_label((label.0@, label.1)),
            },
    {
        let r = bimap_get_by_right(&self.node_labels, label);
        proof {
            let l = (label.0@, label.1);
            if r is Some {
                let i = r->0;
                assert(self@.labels.dom().contains(i as int) && self@.labels[i as int] === l);
                assert(self@.has_label(l));
            }
        }
        r
    }

    /// The index of the node carrying `label`, inserting a fresh node if no
    /// node carries it yet. Insertion is idempotent per identity: a repeated
    /// call returns the same index and leaves the graph unchanged.
    pub fn find_or_add_vertex(&mut self, label: (String, bool)) -> (idx: Nd)
        requires
            old(self)@.wf(),
        ensures
            final(self)@.wf(),
            final(self)@ === Self::find_or_add_spec(old(self)@, (label.0@, label.1)).0,
            idx as int == Self::find_or_add_spec(old(self)@, (label.0@, label.1)).1,
            final(self)@.has_label((label.0@, label.1)),
            final(self)@.labels[idx as int] === (label.0@, label.1),
            0 <= idx < final(self)@.nodes.len(),
    {
        let ghost pre = self@;
        let ghost l = (label.0@, label.1);
        match self.find_vertex(&label) {
            Some(n) => {
                proof {
                    assert(pre.labels.dom().contains(n as int) && pre.labels[n as int] === l);
                    let k = pre.index_of(l);
                    assert(pre.labels.dom().contains(k) && pre.labels[k] === l);
                    assert(k == n as int);
                }
                n
            },
            None => {
                let idx = self.add_vertex(label);
                proof {
                    assert(self@.labels.dom().contains(idx as int) && self@.labels[idx as int]
                        === l);
                    assert(self@.has_label(l));
                    assert(self@ =~= Self::find_or_add_spec(pre, l).0);
                }
                idx
            },
        }
    }

    /// What `find_or_add_vertex` does: the graph after the call and the
    /// returned index.
    pub open spec fn find_or_add_spec(g: GraphView, label: (Seq<char>, bool)) -> (GraphView, int) {
        if g.has_label(label) {
            (g, g.index_of(label))
        } else {
            (
                GraphView {
                    nodes: g.nodes.push(NodeView { outgoing: Seq::empty(), incoming: Seq::empty() }),
                    labels: g.labels.insert(g.nodes.len() as int, label),
                    edge_labels: g.edge_labels,
                },
                g.nodes.len() as int,
            )
        }
    }
}

impl GraphView {
    /// The nodes after wiring a directed edge `l -> r`: `r` is appended to
    /// `l`'s outgoing list and `l` to `r`'s incoming list.
    pub open spec fn wire(nodes: Seq<NodeView>, l: int, r: int) -> Seq<NodeView> {
        let n1 = nodes.update(
            l,
            NodeView { outgoing: nodes[l].outgoing.push(r as usize), incoming: nodes[l].incoming },
        );
        n1.update(
            r,
            NodeView { outgoing: n1[r].outgoing, incoming: n1[r].incoming.push(l as usize) },
        )
    }
}

impl Graph {
    /// Wires a directed edge `e.0 -> e.1` labeled `label`, overwriting the
    /// label of an earlier edge with the same endpoints. An edge whose
    /// endpoint is no node of the graph is dropped; the checked insertion
    /// path `add` creates both endpoints first, so that never happens there.
    pub fn add_edge(&mut self, e: Ed, label: String)
        requires
            old(self)@.wf(),
        ensures
            final(self)@.wf(),
            e.0 < old(self)@.nodes.len() && e.1 < old(self)@.nodes.len() ==> final(self)@
                === (GraphView {
                nodes: GraphView::wire(old(self)@.nodes, e.0 as int, e.1 as int),
                labels: old(self)@.labels,
                edge_labels: old(self)@.edge_labels.insert((e.0 as int, e.1 as int), label@),
            }),
            !(e.0 < old(self)@.nodes.len() && e.1 < old(self)@.nodes.len()) ==> final(self)@
                === old(self)@,
    {
        let (l, r) = e;
        let ghost pre = self@;
        if l < self.node_data.len() && r < self.node_data.len() {
            self.node_data[l].outgoing.push(r);
            self.node_data[r].incoming.push(l);
            self.edge_labels.push(((l, r), label));
            proof {
                assert(self.edge_labels@.drop_last() =~= old(self).edge_labels@);
                assert(self@.nodes =~= GraphView::wire(pre.nodes, l as int, r as int));
                assert(self@ =~= (GraphView {
                    nodes: GraphView::wire(pre.nodes, l as int, r as int),
                    labels: pre.labels,
                    edge_labels: pre.edge_labels.insert((l as int, r as int), label@),
                }));
            }
        } else {
            proof {
                assert(self@ =~= pre);
            }
        }
    }

    /// What `add` does: both identities are found or created, then the edge
    /// is wired with the given label.
    pub open spec fn add_spec(
        g: GraphView,
        l1: (Seq<char>, bool),
        e: Seq<char>,
        l2: (Seq<char>, bool),
    ) -> GraphView {
        let gi1 = Self::find_or_add_spec(g, l1);
        let gi2 = Self::find_or_add_spec(gi1.0, l2);
        GraphView {
            nodes: GraphView::wire(gi2.0.nodes, gi1.1, gi2.1),
            labels: gi2.0.labels,
            edge_labels: gi2.0.edge_labels.insert((gi1.1, gi2.1), e),
        }
    }

    /// Finds or creates nodes for both identities, then wires a directed
    /// edge `vtx1 -> vtx2` labeled `edge` (overwriting the label of an
    /// earlier edge with the same endpoints).
    pub fn add(&mut self, vtx1: (String, bool), edge: String, vtx2: (String, bool))
        requires
            old(self)@.wf(),
        ensures
            final(self)@.wf(),
            final(self)@ === Self::add_spec(
                old(self)@,
                (vtx1.0@, vtx1.1),
                edge@,
                (vtx2.0@, vtx2.1),
            ),
    {
        let ghost pre = self@;
        let v1 = self.find_or_add_vertex(vtx1);
        let v2 = self.find_or_add_vertex(vtx2);
        self.add_edge((v1, v2), edge);
    }
}

/// The root indices of a node sequence: the indices whose incoming list is
/// empty, in increasing order.
pub open spec fn roots_spec(nodes: Seq<NodeView>) -> Seq<usize>
    decreases nodes.len(),
{
    if nodes.len() == 0 {
        Seq::empty()
    } else {
        let pre = roots_spec(nodes.drop_last());
        if nodes.last().incoming.len() == 0 {
            pre.push((nodes.len() - 1) as usize)
        } else {
            pre
        }
    }
}

impl Graph {
    /// All nodes with no incoming edge, in node-creation order.
    pub fn roots(&self) -> (r: Vec<Nd>)
        ensures
            r@ === roots_spec(self@.nodes),
    {
        let mut result: Vec<Nd> = Vec::new();
        let n = self.node_data.len();
        let mut i: usize = 0;
        while i < n
            invariant
                0 <= i <= n,
                n == self@.nodes.len(),
                result@ === roots_spec(self@.nodes.take(i as int)),
            decreases n - i,
        {
            proof {
                assert(self@.nodes.take(i + 1).drop_last() =~= self@.nodes.take(i as int));
                assert(self@.nodes.take(i + 1).last() === self@.nodes[i as int]);
            }
            if self.node_data[i].incoming.len() == 0 {
                result.push(i);
            }
            i += 1;
        }
        proof {
            assert(self@.nodes.take(n as int) =~= self@.nodes);
        }
        result
    }

    /// The identity of the node at `id`. The node must exist: asking for a
    /// missing node is a programmer error, not a recoverable condition.
    pub fn get_vertex_label(&self, id: Nd) -> (r: (String, bool))
        requires
            self@.wf(),
            0 <= id < self@.nodes.len(),
        ensures
            (r.0@, r.1) === self@.labels[id as int],
    {
        let got = bimap_get_by_left(&self.node_labels, id);
        proof {
            assert(self@.labels.dom().contains(id as int));
            assert(got is Some);
        }
        got.unwrap()
    }

    /// The out-degree of the node at `i`.
    pub fn out_degree(&self, i: usize) -> (d: usize)
        requires
            0 <= i < self@.nodes.len(),
        ensures
            d == self@.nodes[i as int].outgoing.len(),
    {
        self.node_data[i].outgoing.len()
    }

    /// The `j`-th outgoing edge target of the node at `i`.
    pub fn out_child(&self, i: usize, j: usize) -> (c: usize)
        requires
            0 <= i < self@.nodes.len(),
            0 <= j < self@.nodes[i as int].outgoing.len(),
        ensures
            c == self@.nodes[i as int].outgoing[j as int],
    {
        self.node_data[i].outgoing[j]
    }
}

/// Positions `at` and beyond of `s` hold no entry for the edge `k`, so the
/// edge-label map of `s` agrees at `k` with that of the first `at` entries.
proof fn lemma_edge_map_skip(s: Seq<(Ed, String)>, at: int, k: (int, int))
    requires
        0 <= at <= s.len(),
        forall|j: int|
            at <= j < s.len() ==> ((#[trigger] s[j]).0.0 as int, s[j].0.1 as int) !== k,
    ensures
        edge_label_map(s).dom().contains(k) == edge_label_map(s.take(at)).dom().contains(k),
        edge_label_map(s).dom().contains(k) ==> edge_label_map(s)[k] === edge_label_map(
            s.take(at),
        )[k],
    decreases s.len() - at,
{
    if at == s.len() {
        assert(s.take(at) =~= s);
    } else {
        lemma_edge_map_skip(s, at + 1, k);
        assert(s.take(at + 1).drop_last() =~= s.take(at));
        assert(s.take(at + 1).last() === s[at]);
    }
}

impl Graph {
    /// The label of the edge `e`. The edge must exist: asking for a missing
    /// edge is a programmer error, not a recoverable condition.
    pub fn get_edge_label(&self, e: &Ed) -> (r: String)
        requires
            self@.edge_labels.dom().contains((e.0 as int, e.1 as int)),
        ensures
            r@ === self@.edge_labels[(e.0 as int, e.1 as int)],
    {
        let ghost k = (e.0 as int, e.1 as int);
        let mut i = self.edge_labels.len();
        while i > 0
            invariant
                k === (e.0 as int, e.1 as int),
                self@.edge_labels.dom().contains(k),
                0 <= i <= self.edge_labels@.len(),
                forall|j: int|
                    i <= j < self.edge_labels@.len() ==> ((#[trigger] self.edge_labels@[j]).0.0
                        as int, self.edge_labels@[j].0.1 as int) !== k,
            decreases i,
        {
            i -= 1;
            let entry = &self.edge_labels[i];
            if entry.0.0 == e.0 && entry.0.1 == e.1 {
                proof {
                    let entries = self.edge_labels@;
                    assert((entries[i as int].0.0 as int, entries[i as int].0.1 as int) === k);
                    lemma_edge_map_skip(entries, i + 1, k);
                    assert(entries.take(i + 1).drop_last() =~= entries.take(i as int));
                    assert(entries.take(i + 1).last() === entries[i as int]);
                    assert(edge_label_map(entries.take(i + 1))[k] === entries[i as int].1@);
                    assert(self@.edge_labels[k] === entries[i as int].1@);
                }
                return entry.1.clone();
            }
            proof {
                let entries = self.edge_labels@;
                assert((entries[i as int].0.0 as int, entries[i as int].0.1 as int) !== k);
            }
        }
        proof {
            lemma_edge_map_skip(self.edge_labels@, 0, k);
            assert(self.edge_labels@.take(0) =~= Seq::<(Ed, String)>::empty());
            assert(false);
        }
        vstd::pervasive::unreached()
    }
}

/// Finding-or-adding preserves well-formedness: the returned index carries
/// the identity, existing labels stay in place, the edge labels do not
/// move, and the node count grows exactly when the identity was new.
pub proof fn lemma_find_or_add_spec_wf(g: GraphView, l: (Seq<char>, bool))
    requires
        g.wf(),
    ensures
        ({
            let gi = Graph::find_or_add_spec(g, l);
            &&& gi.0.wf()
            &&& gi.0.has_label(l)
            &&& 0 <= gi.1 < gi.0.nodes.len()
            &&& gi.0.labels[gi.1] === l
            &&& gi.0.edge_labels === g.edge_labels
            &&& forall|k: int|
                g.labels.dom().contains(k) ==> gi.0.labels.dom().contains(k) && gi.0.labels[k]
                    === g.labels[k]
            &&& (g.has_label(l) ==> gi.0 === g)
            &&& (!g.has_label(l) ==> gi.0.nodes.len() == g.nodes.len() + 1 && gi.1
                == g.nodes.len())
        }),
{
    if g.has_label(l) {
        let k = g.index_of(l);
        assert(g.labels.dom().contains(k) && g.labels[k] === l);
    } else {
        let n = g.nodes.len() as int;
        let g1 = Graph::find_or_add_spec(g, l).0;
        assert(g1.labels === g.labels.insert(n, l));
        assert(g1.labels.dom().contains(n) && g1.labels[n] === l);
        assert(g1.has_label(l));
        assert forall|i: int, j: int|
            g1.labels.dom().contains(i) && g1.labels.dom().contains(j) && g1.labels[i]
                === g1.labels[j] implies i == j by {
            if i != n && j != n {
                assert(g.labels.dom().contains(i) && g.labels.dom().contains(j));
            } else if i == n && j != n {
                assert(g.labels.dom().contains(j) && g.labels[j] === l);
            } else if i != n && j == n {
                assert(g.labels.dom().contains(i) && g.labels[i] === l);
            }
        }
        assert forall|i: int, j: int|
            0 <= i < g1.nodes.len() && 0 <= j < g1.nodes[i].outgoing.len() implies #[trigger] g1.nodes[i].outgoing[j]
            < g1.nodes.len() by {
            if i < n {
                assert(g1.nodes[i] === g.nodes[i]);
            }
        }
        assert forall|i: int, j: int|
            0 <= i < g1.nodes.len() && 0 <= j < g1.nodes[i].incoming.len() implies #[trigger] g1.nodes[i].incoming[j]
            < g1.nodes.len() by {
            if i < n {
                assert(g1.nodes[i] === g.nodes[i]);
            }
        }
        assert forall|i: int, j: int|
            0 <= i < g1.nodes.len() && 0 <= j < g1.nodes[i].outgoing.len() implies g1.edge_labels.dom().contains(
            (i, #[trigger] g1.nodes[i].outgoing[j] as int),
        ) by {
            if i < n {
                assert(g1.nodes[i] === g.nodes[i]);
            }
        }
    }
}

/// Adding an edge preserves well-formedness: both identities end up
/// labeled, and the edge label map gains exactly the new pair's label.
pub proof fn lemma_add_spec_wf(
    g: GraphView,
    a: (Seq<char>, bool),
    e: Seq<char>,
    b: (Seq<char>, bool),
)
    requires
        g.wf(),
        g.nodes.len() + 2 <= usize::MAX,
    ensures
        ({
            let gi1 = Graph::find_or_add_spec(g, a);
            let gi2 = Graph::find_or_add_spec(gi1.0, b);
            let s = Graph::add_spec(g, a, e, b);
            &&& s.wf()
            &&& s.labels === gi2.0.labels
            &&& s.nodes.len() == gi2.0.nodes.len()
            &&& s.labels[gi1.1] === a
            &&& s.labels[gi2.1] === b
            &&& s.edge_labels === gi2.0.edge_labels.insert((gi1.1, gi2.1), e)
        }),
{
    lemma_find_or_add_spec_wf(g, a);
    let gi1 = Graph::find_or_add_spec(g, a);
    lemma_find_or_add_spec_wf(gi1.0, b);
    let gi2 = Graph::find_or_add_spec(gi1.0, b);
    let g2 = gi2.0;
    let ia = gi1.1;
    let ib = gi2.1;
    let s = Graph::add_spec(g, a, e, b);
    assert(g2.labels.dom().contains(ia) && g2.labels[ia] === a);
    assert(0 <= ia < g2.nodes.len() && 0 <= ib < g2.nodes.len());
    let wired = GraphView::wire(g2.nodes, ia, ib);
    assert(wired.len() == g2.nodes.len());
    assert(0 <= ia <= usize::MAX && 0 <= ib <= usize::MAX);
    assert((ia as usize) as int == ia && (ib as usize) as int == ib);
    assert forall|i: int, j: int|
        0 <= i < wired.len() && 0 <= j < wired[i].outgoing.len() implies #[trigger] wired[i].outgoing[j]
        < wired.len() by {
        if i == ia && j == g2.nodes[ia].outgoing.len() {
            assert(wired[i].outgoing[j] == ib as usize);
        } else {
            assert(wired[i].outgoing[j] === g2.nodes[i].outgoing[j]);
        }
    }
    assert forall|i: int, j: int|
        0 <= i < wired.len() && 0 <= j < wired[i].incoming.len() implies #[trigger] wired[i].incoming[j]
        < wired.len() by {
        if i == ib && j == g2.nodes[ib].incoming.len() {
            assert(wired[i].incoming[j] == ia as usize);
        } else {
            assert(wired[i].incoming[j] === g2.nodes[i].incoming[j]);
        }
    }
    assert forall|i: int, j: int|
        0 <= i < wired.len() && 0 <= j < wired[i].outgoing.len() implies s.edge_labels.dom().contains(
        (i, #[trigger] wired[i].outgoing[j] as int),
    ) by {
        if i == ia && j == g2.nodes[ia].outgoing.len() {
            assert(wired[i].outgoing[j] == ib as usize);
        } else {
            assert(wired[i].outgoing[j] === g2.nodes[i].outgoing[j]);
            assert(g2.edge_labels.dom().contains((i, g2.nodes[i].outgoing[j] as int)));
        }
    }
}

/// Law: node insertion is idempotent per identity. Finding-or-adding the
/// same identity twice returns the same index both times, the second call
/// leaves the graph unchanged, and the node count grows by exactly one over
/// both calls when the identity was new, by none when it already existed.
pub proof fn lemma_find_or_add_idempotent(g: GraphView, l: (Seq<char>, bool))
    requires
        g.wf(),
    ensures
        ({
            let gi1 = Graph::find_or_add_spec(g, l);
            let gi2 = Graph::find_or_add_spec(gi1.0, l);
            &&& gi2.0 === gi1.0
            &&& gi2.1 == gi1.1
            &&& (!g.has_label(l) ==> gi1.0.nodes.len() == g.nodes.len() + 1)
            &&& (g.has_label(l) ==> gi1.0.nodes.len() == g.nodes.len())
        }),
{
    lemma_find_or_add_spec_wf(g, l);
    let gi1 = Graph::find_or_add_spec(g, l);
    let g1 = gi1.0;
    assert(g1.has_label(l));
    let k = g1.index_of(l);
    assert(g1.labels.dom().contains(k) && g1.labels[k] === l);
    assert(g1.labels.dom().contains(gi1.1) && g1.labels[gi1.1] === l);
    assert(k == gi1.1);
}

/// Law: the label of an edge added twice between the same endpoints is the
/// second label. Exactly one binding for the edge survives in the edge
/// label map, and no nodes are created by the second insertion.
pub proof fn lemma_edge_label_overwrite(
    g: GraphView,
    a: (Seq<char>, bool),
    x: Seq<char>,
    y: Seq<char>,
    b: (Seq<char>, bool),
)
    requires
        g.wf(),
        g.nodes.len() + 2 <= usize::MAX,
    ensures
        ({
            let gi1 = Graph::find_or_add_spec(g, a);
            let gi2 = Graph::find_or_add_spec(gi1.0, b);
            let s1 = Graph::add_spec(g, a, x, b);
            let s2 = Graph::add_spec(s1, a, y, b);
            &&& s1.edge_labels[(gi1.1, gi2.1)] === x
            &&& s2.edge_labels === s1.edge_labels.insert((gi1.1, gi2.1), y)
            &&& s2.edge_labels[(gi1.1, gi2.1)] === y
            &&& s2.nodes.len() == s1.nodes.len()
        }),
{
    lemma_find_or_add_spec_wf(g, a);
    let gi1 = Graph::find_or_add_spec(g, a);
    lemma_find_or_add_spec_wf(gi1.0, b);
    let gi2 = Graph::find_or_add_spec(gi1.0, b);
    let ia = gi1.1;
    let ib = gi2.1;
    lemma_add_spec_wf(g, a, x, b);
    lemma_add_spec_wf(g, a, y, b);
    let s1 = Graph::add_spec(g, a, x, b);
    assert((ia as usize) as int == ia && (ib as usize) as int == ib);
    // the second insertion finds both identities where the first left them
    lemma_find_or_add_spec_wf(s1, a);
    let ti1 = Graph::find_or_add_spec(s1, a);
    assert(s1.has_label(a));
    assert(ti1.0 === s1);
    assert(s1.labels.dom().contains(ti1.1) && s1.labels[ti1.1] === a);
    assert(s1.labels.dom().contains(ia) && s1.labels[ia] === a);
    assert(ti1.1 == ia);
    lemma_find_or_add_spec_wf(s1, b);
    let ti2 = Graph::find_or_add_spec(s1, b);
    assert(ti2.0 === s1);
    assert(s1.labels.dom().contains(ib) && s1.labels[ib] === b);
    assert(ti2.1 == ib);
}

impl Graph {
    /// The node count and every adjacency-list length fit the machine: the
    /// lists are vectors.
    pub proof fn lemma_sizes_bounded(&self)
        ensures
            self@.nodes.len() <= usize::MAX,
            forall|i: int|
                0 <= i < self@.nodes.len() ==> (#[trigger] self@.nodes[i]).outgoing.len()
                    <= usize::MAX,
    {
        assert(vstd::std_specs::vec::spec_vec_len(&self.node_data) == self.node_data@.len());
        assert forall|i: int|
            0 <= i < self@.nodes.len() implies (#[trigger] self@.nodes[i]).outgoing.len()
            <= usize::MAX by {
            let v = self.node_data@[i].outgoing;
            assert(vstd::std_specs::vec::spec_vec_len(&v) == v@.len());
        }
    }
}

} // verus!
