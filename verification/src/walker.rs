//! Cycle-safe depth-first traversal.
//!
//! `walk_dfs_post_order` produces a bottom-up visitation order over a graph
//! that may contain cycles: every node reachable from the start node appears
//! exactly once, each visit lists the node's forbidden children (targets of
//! detected cycle-closing edges), and every child of a visit that is not
//! forbidden appears strictly earlier in the order. The traversal uses an
//! explicit stack of `(node, next-child-offset)` frames, so its depth does
//! not rest on the call stack.

use vstd::prelude::*;

use crate::bits::{bits_get, bits_new, bits_set, bits_view, Bits};
use crate::graph::{Graph, GraphView, Nd};

verus! {

/// One post-order visit: the visited node and its forbidden children, the
/// targets of the cycle-closing edges detected at that node.
pub struct PostVisit {
    pub node: usize,
    pub forbidden: Vec<usize>,
}

/// The out-degree of node `v`.
pub open spec fn out_deg(g: GraphView, v: int) -> nat {
    g.nodes[v].outgoing.len()
}

/// The `j`-th outgoing edge target of node `v`.
pub open spec fn child_at(g: GraphView, v: int, j: int) -> usize {
    g.nodes[v].outgoing[j]
}

/// Whether the graph has a directed edge `a -> b`.
pub open spec fn has_edge(g: GraphView, a: int, b: usize) -> bool {
    g.nodes[a].outgoing.contains(b)
}

/// Whether `p` is a directed path from `from` to `to`.
pub open spec fn is_path(g: GraphView, p: Seq<usize>, from: usize, to: usize) -> bool {
    &&& p.len() > 0
    &&& p[0] == from
    &&& p.last() == to
    &&& forall|t: int| 0 <= t < p.len() ==> (#[trigger] p[t]) < g.nodes.len()
    &&& forall|t: int| 0 <= t < p.len() - 1 ==> has_edge(g, #[trigger] p[t] as int, p[t + 1])
}

/// Whether some directed path leads from `from` to `to`.
pub open spec fn reachable(g: GraphView, from: usize, to: usize) -> bool {
    exists|p: Seq<usize>| is_path(g, p, from, to)
}

/// Whether some visit of `order` is of node `v`.
pub open spec fn emitted(order: Seq<PostVisit>, v: int) -> bool {
    exists|q: int| 0 <= q < order.len() && (#[trigger] order[q]).node == v
}

/// Whether no node is visited twice.
pub open spec fn distinct_visits(order: Seq<PostVisit>) -> bool {
    forall|p: int, q: int|
        0 <= p < q < order.len() ==> (#[trigger] order[p]).node != (#[trigger] order[q]).node
}

/// The post-order guarantee: every child of a visited node that is not among
/// the visit's forbidden children is itself visited strictly earlier.
pub open spec fn post_order_ok(g: GraphView, order: Seq<PostVisit>) -> bool {
    forall|p: int, j: int|
        0 <= p < order.len() && 0 <= j < out_deg(g, order[p].node as int) ==> {
            let c = #[trigger] child_at(g, order[p].node as int, j);
            order[p].forbidden@.contains(c) || exists|q: int|
                0 <= q < p && (#[trigger] order[q]).node == c
        }
}

/// Every forbidden child of a visit is an outgoing edge target of the
/// visited node, and is itself visited somewhere in the order.
pub open spec fn forbidden_ok(g: GraphView, order: Seq<PostVisit>) -> bool {
    forall|p: int, t: int|
        0 <= p < order.len() && 0 <= t < order[p].forbidden@.len() ==> {
            let c = #[trigger] order[p].forbidden@[t];
            has_edge(g, order[p].node as int, c) && emitted(order, c as int)
        }
}

/// A well-formed post-order traversal from `start`: no node is visited
/// twice, visits are of valid nodes, every non-forbidden child of a visit
/// is visited strictly earlier, forbidden children are real edge targets
/// and are themselves visited, and the visited nodes are exactly those
/// reachable from `start`.
pub open spec fn valid_post_order(g: GraphView, start: usize, order: Seq<PostVisit>) -> bool {
    &&& distinct_visits(order)
    &&& forall|p: int| 0 <= p < order.len() ==> (#[trigger] order[p]).node < g.nodes.len()
    &&& post_order_ok(g, order)
    &&& forbidden_ok(g, order)
    &&& forall|v: usize|
        v < g.nodes.len() ==> (emitted(order, v as int) <==> reachable(g, start, v))
}

/// A node reaches itself.
pub proof fn lemma_reachable_self(g: GraphView, v: usize)
    requires
        v < g.nodes.len(),
    ensures
        reachable(g, v, v),
{
    let p = seq![v];
    assert(is_path(g, p, v, v));
}

/// Reachability follows edges.
pub proof fn lemma_reachable_step(g: GraphView, from: usize, a: usize, b: usize)
    requires
        reachable(g, from, a),
        b < g.nodes.len(),
        has_edge(g, a as int, b),
    ensures
        reachable(g, from, b),
{
    let p = choose|p: Seq<usize>| is_path(g, p, from, a);
    let q = p.push(b);
    assert forall|t: int| 0 <= t < q.len() - 1 implies has_edge(
        g,
        #[trigger] q[t] as int,
        q[t + 1],
    ) by {
        if t < p.len() - 1 {
            assert(q[t] == p[t] && q[t + 1] == p[t + 1]);
        } else {
            assert(q[t] == p.last() && q[t + 1] == b);
        }
    }
    assert(is_path(g, q, from, b));
}

/// Every node on a path into a successor-closed set is in the set, so every
/// node reachable from a member of such a set is a member.
proof fn lemma_path_covered(g: GraphView, vs: Seq<bool>, p: Seq<usize>, from: usize, to: usize)
    requires
        g.wf(),
        vs.len() == g.nodes.len(),
        forall|v: int, j: int|
            0 <= v < g.nodes.len() && vs[v] && 0 <= j < out_deg(g, v) ==> vs[#[trigger] child_at(
                g,
                v,
                j,
            ) as int],
        is_path(g, p, from, to),
        vs[from as int],
    ensures
        vs[to as int],
    decreases p.len(),
{
    if p.len() == 1 {
        assert(to == from);
    } else {
        let q = p.drop_last();
        assert(is_path(g, q, from, p[p.len() - 2]));
        lemma_path_covered(g, vs, q, from, p[p.len() - 2]);
        let a = p[p.len() - 2];
        assert(has_edge(g, a as int, to));
        let out = g.nodes[a as int].outgoing;
        let j = choose|j: int| 0 <= j < out.len() && out[j] == to;
        assert(0 <= j < out.len() && out[j] == to);
        assert(child_at(g, a as int, j) == to);
        assert(vs[child_at(g, a as int, j) as int]);
    }
}

// ---------------------------------------------------------------------------
// The termination measure of the traversal loop.
// ---------------------------------------------------------------------------

/// Weight of the not-yet-visited nodes below `upto`: each costs its
/// out-degree plus two (one for scheduling, one for emission).
pub open spec fn unvisited_weight(g: GraphView, vs: Seq<bool>, upto: int) -> nat
    decreases upto,
{
    if upto <= 0 {
        0
    } else {
        unvisited_weight(g, vs, upto - 1) + if vs[upto - 1] {
            0nat
        } else {
            out_deg(g, upto - 1) + 2
        }
    }
}

/// Weight of one stack frame: the work left on it, once its node is visited.
pub open spec fn frame_cost(g: GraphView, vs: Seq<bool>, f: (usize, usize)) -> nat {
    if vs[f.0 as int] {
        (out_deg(g, f.0 as int) - f.1 + 1) as nat
    } else {
        0
    }
}

/// Weight of the whole stack.
pub open spec fn stack_weight(g: GraphView, vs: Seq<bool>, st: Seq<(usize, usize)>) -> nat
    decreases st.len(),
{
    if st.len() == 0 {
        0
    } else {
        stack_weight(g, vs, st.drop_last()) + frame_cost(g, vs, st.last())
    }
}

/// The loop measure: unvisited weight plus stack weight.
pub open spec fn walk_measure(g: GraphView, vs: Seq<bool>, st: Seq<(usize, usize)>) -> nat {
    unvisited_weight(g, vs, g.nodes.len() as int) + stack_weight(g, vs, st)
}

/// Marking `v` visited removes exactly `v`'s weight.
proof fn lemma_unvisited_weight_update(g: GraphView, vs: Seq<bool>, v: int, upto: int)
    requires
        0 <= v < vs.len(),
        !vs[v],
        upto <= vs.len(),
    ensures
        v < upto ==> unvisited_weight(g, vs.update(v, true), upto) + out_deg(g, v) + 2
            == unvisited_weight(g, vs, upto),
        v >= upto ==> unvisited_weight(g, vs.update(v, true), upto) == unvisited_weight(
            g,
            vs,
            upto,
        ),
    decreases upto,
{
    if upto > 0 {
        lemma_unvisited_weight_update(g, vs, v, upto - 1);
    }
}

/// Two visited sets that agree on every frame node give the stack the same
/// weight.
proof fn lemma_stack_weight_agree(
    g: GraphView,
    vs1: Seq<bool>,
    vs2: Seq<bool>,
    st: Seq<(usize, usize)>,
)
    requires
        forall|s: int| 0 <= s < st.len() ==> vs1[(#[trigger] st[s]).0 as int] == vs2[st[s].0 as int],
    ensures
        stack_weight(g, vs1, st) == stack_weight(g, vs2, st),
    decreases st.len(),
{
    if st.len() > 0 {
        lemma_stack_weight_agree(g, vs1, vs2, st.drop_last());
    }
}

/// Pushing a frame adds exactly its cost.
proof fn lemma_stack_weight_push(g: GraphView, vs: Seq<bool>, st: Seq<(usize, usize)>, f: (
    usize,
    usize,
))
    ensures
        stack_weight(g, vs, st.push(f)) == stack_weight(g, vs, st) + frame_cost(g, vs, f),
{
    assert(st.push(f).drop_last() =~= st);
    assert(st.push(f).last() == f);
}

/// A visit of `order` is a visit of `order.push(x)`, the pushed visit is
/// one, and nothing else is.
proof fn lemma_emitted_push(order: Seq<PostVisit>, x: PostVisit)
    ensures
        forall|v: int| emitted(order, v) ==> emitted(order.push(x), v),
        emitted(order.push(x), x.node as int),
        forall|v: int| emitted(order.push(x), v) ==> emitted(order, v) || v == x.node,
{
    assert forall|v: int| emitted(order, v) implies emitted(order.push(x), v) by {
        let q = choose|q: int| 0 <= q < order.len() && (#[trigger] order[q]).node == v;
        assert(order.push(x)[q].node == v);
    }
    assert(order.push(x)[order.len() as int].node == x.node);
    assert forall|v: int| emitted(order.push(x), v) implies emitted(order, v) || v == x.node by {
        let q = choose|q: int|
            0 <= q < order.push(x).len() && (#[trigger] order.push(x)[q]).node == v;
        if q < order.len() {
            assert(order[q].node == v);
        }
    }
}

// ---------------------------------------------------------------------------
// Small verified builders for the traversal's working state.
// ---------------------------------------------------------------------------

/// A vector of `n` copies of `false`.
fn make_flags(n: usize) -> (v: Vec<bool>)
    ensures
        v@ === Seq::new(n as nat, |i: int| false),
{
    let mut v: Vec<bool> = Vec::new();
    let mut i: usize = 0;
    while i < n
        invariant
            0 <= i <= n,
            v@.len() == i,
            forall|j: int| 0 <= j < i ==> !v@[j],
        decreases n - i,
    {
        v.push(false);
        i += 1;
    }
    proof {
        assert(v@ =~= Seq::new(n as nat, |i: int| false));
    }
    v
}

/// A vector of `n` empty lists.
fn make_cut_lists(n: usize) -> (v: Vec<Vec<usize>>)
    ensures
        v@.len() == n,
        forall|j: int| 0 <= j < n ==> (#[trigger] v@[j])@ === Seq::<usize>::empty(),
{
    let mut v: Vec<Vec<usize>> = Vec::new();
    let mut i: usize = 0;
    while i < n
        invariant
            0 <= i <= n,
            v@.len() == i,
            forall|j: int| 0 <= j < i ==> (#[trigger] v@[j])@ === Seq::<usize>::empty(),
        decreases n - i,
    {
        let empty: Vec<usize> = Vec::new();
        v.push(empty);
        i += 1;
    }
    v
}

/// A copy of a list of node indices.
fn copy_indices(src: &Vec<usize>) -> (r: Vec<usize>)
    ensures
        r@ === src@,
{
    let mut r: Vec<usize> = Vec::new();
    let mut i: usize = 0;
    while i < src.len()
        invariant
            0 <= i <= src@.len(),
            r@ === src@.take(i as int),
        decreases src@.len() - i,
    {
        r.push(src[i]);
        proof {
            assert(src@.take(i + 1).drop_last() =~= src@.take(i as int));
            assert(r@ =~= src@.take(i + 1));
        }
        i += 1;
    }
    proof {
        assert(src@.take(src@.len() as int) =~= src@);
    }
    r
}

impl Graph {
    /// Walks the graph depth-first from `start`, never revisiting a node and
    /// never following a cycle twice, and returns the post-order visits
    /// together with the visited-bit vector.
    ///
    /// Every node reachable from `start` is visited exactly once; every
    /// child of a visit that is not among its forbidden children appears
    /// strictly earlier in the order; every forbidden child is a real edge
    /// target and is itself visited. Unreachable nodes stay unvisited.
    #[verifier::rlimit(100)]
    pub fn walk_dfs_post_order(&self, start: Nd) -> (r: (Vec<PostVisit>, Bits))
        requires
            self@.wf(),
            start < self@.nodes.len(),
        ensures
            bits_view(r.1).len() == self@.nodes.len(),
            distinct_visits(r.0@),
            forall|p: int| 0 <= p < r.0@.len() ==> (#[trigger] r.0@[p]).node < self@.nodes.len(),
            forall|v: int|
                0 <= v < self@.nodes.len() ==> (bits_view(r.1)[v] <==> emitted(r.0@, v)),
            post_order_ok(self@, r.0@),
            forbidden_ok(self@, r.0@),
            forall|v: usize|
                v < self@.nodes.len() ==> (bits_view(r.1)[v as int] <==> reachable(
                    self@,
                    start,
                    v,
                )),
            valid_post_order(self@, start, r.0@),
            order_view(r.0@) === dfs_run(self@, walk_init(self@, start)).order,
            bits_view(r.1) === dfs_run(self@, walk_init(self@, start)).visited,
    {
        let ghost g = self@;
        let n = self.len();
        let mut visited = bits_new(n, false);
        let mut onpath = make_flags(n);
        let mut cuts = make_cut_lists(n);
        let mut order: Vec<PostVisit> = Vec::new();
        let mut stack: Vec<(usize, usize)> = Vec::new();
        stack.push((start, 0));
        proof {
            lemma_reachable_self(g, start);
            self.lemma_sizes_bounded();
            let init_abs = (WalkState {
                stack: stack@,
                visited: bits_view(visited),
                onpath: onpath@,
                cuts: cuts_view(cuts@),
                order: order_view(order@),
            });
            assert(init_abs =~~= walk_init(g, start));
        }
        while stack.len() > 0
            invariant
                g === self@,
                g.wf(),
                sizes_bounded(g),
                dfs_run(
                    g,
                    (WalkState {
                        stack: stack@,
                        visited: bits_view(visited),
                        onpath: onpath@,
                        cuts: cuts_view(cuts@),
                        order: order_view(order@),
                    }),
                ) === dfs_run(g, walk_init(g, start)),
                n == g.nodes.len(),
                start < n,
                bits_view(visited).len() == n,
                onpath@.len() == n,
                cuts@.len() == n,
                // frames are valid
                forall|s: int|
                    0 <= s < stack@.len() ==> (#[trigger] stack@[s]).0 < n && stack@[s].1
                        <= out_deg(g, stack@[s].0 as int),
                // frame nodes are distinct
                forall|s1: int, s2: int|
                    0 <= s1 < s2 < stack@.len() ==> (#[trigger] stack@[s1]).0 != (
                    #[trigger] stack@[s2]).0,
                // every frame node but a fresh top is on the current path
                forall|s: int|
                    0 <= s < stack@.len() - 1 ==> onpath@[(#[trigger] stack@[s]).0 as int],
                stack@.len() > 0 ==> (onpath@[stack@.last().0 as int] || (stack@.last().1 == 0
                    && !bits_view(visited)[stack@.last().0 as int])),
                // every node on the current path has a frame
                forall|v: int|
                    0 <= v < n && onpath@[v] ==> exists|s: int|
                        0 <= s < stack@.len() && (#[trigger] stack@[s]).0 == v,
                // the bottom frame is the start node; once the stack is
                // empty, the start node has been visited
                stack@.len() > 0 ==> stack@[0].0 == start,
                stack@.len() == 0 ==> bits_view(visited)[start as int],
                // the current path is visited
                forall|v: int| 0 <= v < n && onpath@[v] ==> bits_view(visited)[v],
                // visited is exactly emitted-or-on-path, and those exclude
                // each other
                forall|v: int|
                    0 <= v < n ==> (bits_view(visited)[v] <==> (emitted(order@, v) || onpath@[v])),
                forall|v: int| 0 <= v < n && emitted(order@, v) ==> !onpath@[v],
                // emitted visits are valid and distinct
                forall|p: int| 0 <= p < order@.len() ==> (#[trigger] order@[p]).node < n,
                distinct_visits(order@),
                post_order_ok(g, order@),
                // forbidden children of emitted visits are edges to visited
                // nodes
                forall|p: int, t: int|
                    0 <= p < order@.len() && 0 <= t < order@[p].forbidden@.len() ==> {
                        let c = #[trigger] order@[p].forbidden@[t];
                        has_edge(g, order@[p].node as int, c) && bits_view(visited)[c as int]
                    },
                // recorded cuts are edges to visited nodes
                forall|v: int, t: int|
                    0 <= v < n && 0 <= t < cuts@[v]@.len() ==> has_edge(
                        g,
                        v,
                        #[trigger] cuts@[v]@[t],
                    ) && bits_view(visited)[cuts@[v]@[t] as int],
                // every child of a frame below its offset is handled: cut,
                // emitted, or scheduled above
                forall|s: int, j: int|
                    #![trigger child_at(g, stack@[s].0 as int, j)]
                    0 <= s < stack@.len() && 0 <= j < stack@[s].1 ==> {
                        let c = child_at(g, stack@[s].0 as int, j);
                        cuts@[stack@[s].0 as int]@.contains(c) || emitted(order@, c as int)
                            || exists|s2: int|
                            s < s2 < stack@.len() && (#[trigger] stack@[s2]).0 == c
                    },
                // everything visited or scheduled is reachable
                forall|v: int|
                    0 <= v < n && bits_view(visited)[v] ==> reachable(g, start, v as usize),
                forall|s: int|
                    0 <= s < stack@.len() ==> reachable(g, start, (#[trigger] stack@[s]).0),
            decreases walk_measure(g, bits_view(visited), stack@),
        {
            let ghost vs0 = bits_view(visited);
            let ghost st0 = stack@;
            let ghost on0 = onpath@;
            let ghost ct0 = cuts@;
            let ghost ord0 = order@;
            let frame = stack.pop().unwrap();
            let node = frame.0;
            let k = frame.1;
            let ghost st1 = stack@;
            proof {
                assert(st0.last() == frame);
                assert(st1 =~= st0.drop_last());
                // the popped node was not emitted yet
                if on0[node as int] {
                    assert(!emitted(ord0, node as int));
                } else {
                    assert(k == 0 && !vs0[node as int]);
                    assert(!emitted(ord0, node as int));
                }
                // no other frame holds the popped node
                assert(forall|s: int|
                    0 <= s < st1.len() ==> (#[trigger] st1[s]).0 != node);
            }
            onpath[node] = true;
            bits_set(&mut visited, node, true);
            let ghost vs1 = bits_view(visited);
            let ghost on1 = onpath@;
            proof {
                if vs0[node as int] {
                    assert(vs1 =~= vs0);
                } else {
                    lemma_unvisited_weight_update(g, vs0, node as int, n as int);
                }
                lemma_stack_weight_agree(g, vs0, vs1, st1);
                assert(stack_weight(g, vs0, st0) == stack_weight(g, vs0, st1) + frame_cost(
                    g,
                    vs0,
                    frame,
                ));
            }
            let deg = self.out_degree(node);
            if k < deg {
                stack.push((node, k + 1));
                let child = self.out_child(node, k);
                proof {
                    assert(g.nodes[node as int].outgoing[k as int] == child);
                    assert(has_edge(g, node as int, child));
                    assert(child < n);
                    lemma_reachable_step(g, start, node, child);
                }
                if onpath[child] {
                    cuts[node].push(child);
                    proof {
                        assert(cuts@[node as int]@ =~= ct0[node as int]@.push(child));
                    }
                }
                let ghost ct1 = cuts@;
                let child_visited = bits_get(&visited, child).unwrap();
                if !child_visited {
                    stack.push((child, 0));
                }
                proof {
                    let stN = stack@;
                    let onN = onpath@;
                    let ctN = cuts@;
                    // measure decreases
                    lemma_stack_weight_push(g, vs1, st1, (node, (k + 1) as usize));
                    if !child_visited {
                        lemma_stack_weight_push(g, vs1, st1.push((node, (k + 1) as usize)), (child, 0usize));
                    }
                    assert(walk_measure(g, vs1, stN) < walk_measure(g, vs0, st0));
                    // a node on the path still has a frame
                    assert forall|v: int| 0 <= v < n && onN[v] implies exists|s: int|
                        0 <= s < stN.len() && (#[trigger] stN[s]).0 == v by {
                        if v == node as int {
                            assert(stN[st1.len() as int].0 == node);
                        } else {
                            assert(on0[v]);
                            let s = choose|s: int|
                                0 <= s < st0.len() && (#[trigger] st0[s]).0 == v;
                            if s < st1.len() {
                                assert(stN[s].0 == v);
                            } else {
                                assert(st0[s] == frame);
                            }
                        }
                    }
                    // every frame's handled children stay handled
                    assert forall|s: int, j: int|
                        #![trigger child_at(g, stN[s].0 as int, j)]
                        0 <= s < stN.len() && 0 <= j < stN[s].1 implies {
                        let c = child_at(g, stN[s].0 as int, j);
                        ctN[stN[s].0 as int]@.contains(c) || emitted(ord0, c as int)
                            || exists|s2: int|
                            s < s2 < stN.len() && (#[trigger] stN[s2]).0 == c
                    } by {
                        let v = stN[s].0;
                        let c = child_at(g, v as int, j);
                        if s < st1.len() {
                            assert(stN[s] == st0[s]);
                            assert(child_at(g, st0[s].0 as int, j) == c);
                            assert(ct0[v as int]@.contains(c) || emitted(ord0, c as int)
                                || exists|s2: int|
                                s < s2 < st0.len() && (#[trigger] st0[s2]).0 == c);
                            if ct0[v as int]@.contains(c) {
                                let t = choose|t: int|
                                    0 <= t < ct0[v as int]@.len() && ct0[v as int]@[t] == c;
                                assert(ctN[v as int]@[t] == c);
                            } else if !emitted(ord0, c as int) {
                                let s2 = choose|s2: int|
                                    s < s2 < st0.len() && (#[trigger] st0[s2]).0 == c;
                                if s2 < st1.len() {
                                    assert(stN[s2].0 == c);
                                } else {
                                    assert(st0[s2] == frame);
                                    assert(stN[st1.len() as int].0 == node);
                                }
                            }
                        } else if s == st1.len() {
                            assert(stN[s] == (node, (k + 1) as usize));
                            if j < k {
                                assert(st0[st1.len() as int] == frame);
                                assert(child_at(g, st0[st1.len() as int].0 as int, j) == c);
                                assert(ct0[node as int]@.contains(c) || emitted(ord0, c as int)
                                    || exists|s2: int|
                                    st1.len() < s2 < st0.len() && (#[trigger] st0[s2]).0 == c);
                                assert(!(exists|s2: int|
                                    st1.len() < s2 < st0.len() && (#[trigger] st0[s2]).0 == c));
                                if ct0[node as int]@.contains(c) {
                                    let t = choose|t: int|
                                        0 <= t < ct0[node as int]@.len() && ct0[node as int]@[t]
                                            == c;
                                    assert(ctN[node as int]@[t] == c);
                                }
                            } else {
                                assert(c == child);
                                if on1[child as int] {
                                    assert(ctN[node as int]@.last() == child);
                                    assert(ctN[node as int]@.contains(c));
                                } else if vs1[child as int] {
                                    assert(child != node);
                                    assert(vs0[child as int] && !on0[child as int]);
                                    assert(emitted(ord0, child as int));
                                } else {
                                    assert(stN[stN.len() - 1] == (child, 0usize));
                                }
                            }
                        } else {
                            assert(stN[s] == (child, 0usize));
                        }
                    }
                }
            } else {
                let forbidden = copy_indices(&cuts[node]);
                order.push(PostVisit { node, forbidden });
                onpath[node] = false;
                proof {
                    let x = PostVisit { node, forbidden };
                    lemma_emitted_push(ord0, x);
                    let ordN = order@;
                    let onN = onpath@;
                    assert(ordN == ord0.push(x));
                    // measure decreases
                    assert(walk_measure(g, vs1, st1) < walk_measure(g, vs0, st0));
                    // the new visit satisfies the post-order guarantee: each
                    // child was handled, and no frame stood above the top
                    assert forall|j: int| #![trigger child_at(g, node as int, j)]
                        0 <= j < out_deg(g, node as int) implies {
                        let c = child_at(g, node as int, j);
                        x.forbidden@.contains(c) || exists|q: int|
                            0 <= q < ord0.len() && (#[trigger] ord0[q]).node == c
                    } by {
                        let c = child_at(g, node as int, j);
                        assert(cuts@[node as int]@.contains(c) || emitted(ord0, c as int)
                            || exists|s2: int|
                            st1.len() < s2 < st0.len() && (#[trigger] st0[s2]).0 == c) by {
                            assert(st0[st1.len() as int] == frame);
                        }
                        assert(!(exists|s2: int|
                            st1.len() < s2 < st0.len() && (#[trigger] st0[s2]).0 == c));
                    }
                    assert(post_order_ok(g, ordN)) by {
                        assert forall|p: int, j: int|
                            0 <= p < ordN.len() && 0 <= j < out_deg(g, ordN[p].node as int) implies {
                            let c = #[trigger] child_at(g, ordN[p].node as int, j);
                            ordN[p].forbidden@.contains(c) || exists|q: int|
                                0 <= q < p && (#[trigger] ordN[q]).node == c
                        } by {
                            let c = child_at(g, ordN[p].node as int, j);
                            if p < ord0.len() {
                                assert(ordN[p] == ord0[p]);
                                if !ord0[p].forbidden@.contains(c) {
                                    let q = choose|q: int|
                                        0 <= q < p && (#[trigger] ord0[q]).node == c;
                                    assert(ordN[q].node == c);
                                }
                            } else {
                                assert(ordN[p] == x);
                                if !x.forbidden@.contains(c) {
                                    assert(emitted(ord0, c as int));
                                    let q = choose|q: int|
                                        0 <= q < ord0.len() && (#[trigger] ord0[q]).node == c;
                                    assert(ordN[q].node == c);
                                }
                            }
                        }
                    }
                    // handled children of the remaining frames stay handled
                    assert forall|s: int, j: int|
                        #![trigger child_at(g, st1[s].0 as int, j)]
                        0 <= s < st1.len() && 0 <= j < st1[s].1 implies {
                        let c = child_at(g, st1[s].0 as int, j);
                        ct0[st1[s].0 as int]@.contains(c) || emitted(ordN, c as int)
                            || exists|s2: int|
                            s < s2 < st1.len() && (#[trigger] st1[s2]).0 == c
                    } by {
                        let v = st1[s].0;
                        let c = child_at(g, v as int, j);
                        assert(st1[s] == st0[s]);
                        assert(child_at(g, st0[s].0 as int, j) == c);
                        assert(ct0[v as int]@.contains(c) || emitted(ord0, c as int)
                            || exists|s2: int|
                            s < s2 < st0.len() && (#[trigger] st0[s2]).0 == c);
                        if !ct0[v as int]@.contains(c) {
                            if !emitted(ord0, c as int) {
                                let s2 = choose|s2: int|
                                    s < s2 < st0.len() && (#[trigger] st0[s2]).0 == c;
                                if s2 < st1.len() {
                                    assert(st1[s2].0 == c);
                                } else {
                                    assert(st0[s2] == frame);
                                    assert(c == node);
                                    assert(emitted(ordN, node as int));
                                }
                            }
                        }
                    }
                    // a node on the path still has a frame below the top
                    assert forall|v: int| 0 <= v < n && onN[v] implies exists|s: int|
                        0 <= s < st1.len() && (#[trigger] st1[s]).0 == v by {
                        assert(on0[v] || v == node as int);
                        assert(v != node as int);
                        assert(on1[v]);
                        let s = choose|s: int|
                            0 <= s < st0.len() && (#[trigger] st0[s]).0 == v;
                        assert(s < st1.len());
                        assert(st1[s].0 == v);
                    }
                }
            }
            proof {
                let pre_state = (WalkState {
                    stack: st0,
                    visited: vs0,
                    onpath: on0,
                    cuts: cuts_view(ct0),
                    order: order_view(ord0),
                });
                let post_state = (WalkState {
                    stack: stack@,
                    visited: bits_view(visited),
                    onpath: onpath@,
                    cuts: cuts_view(cuts@),
                    order: order_view(order@),
                });
                assert(pre_state.stack.last() == frame);
                assert(state_inv(g, pre_state));
                let stepped = walk_step(g, pre_state);
                assert(post_state.visited =~= stepped.visited);
                assert(post_state.onpath =~= stepped.onpath);
                assert(post_state.stack =~= stepped.stack);
                assert(post_state.cuts =~~= stepped.cuts);
                assert(post_state.order =~~= stepped.order);
                assert(post_state =~~= stepped);
                assert(dfs_run(g, pre_state) === dfs_run(g, post_state));
            }
        }
        proof {
            let final_state = (WalkState {
                stack: stack@,
                visited: bits_view(visited),
                onpath: onpath@,
                cuts: cuts_view(cuts@),
                order: order_view(order@),
            });
            assert(state_inv(g, final_state));
            assert(dfs_run(g, final_state) === final_state);
            assert(order_view(order@) === dfs_run(g, walk_init(g, start)).order);
            assert(bits_view(visited) === dfs_run(g, walk_init(g, start)).visited);
        }
        proof {
            let ord = order@;
            let vs = bits_view(visited);
            // the path is empty, so visited coincides with emitted
            assert forall|v: int| 0 <= v < n implies !onpath@[v] by {
                if onpath@[v] {
                    let s = choose|s: int|
                        0 <= s < stack@.len() && (#[trigger] stack@[s]).0 == v;
                }
            }
            // visited is closed under edges, so it covers all reachable nodes
            assert forall|v: int, j: int|
                0 <= v < n && vs[v] && 0 <= j < out_deg(g, v) implies vs[#[trigger] child_at(
                g,
                v,
                j,
            ) as int] by {
                let c = child_at(g, v, j);
                let p = choose|p: int| 0 <= p < ord.len() && (#[trigger] ord[p]).node == v;
                assert(ord[p].forbidden@.contains(c) || exists|q: int|
                    0 <= q < p && (#[trigger] ord[q]).node == c);
                if ord[p].forbidden@.contains(c) {
                    let t = choose|t: int|
                        0 <= t < ord[p].forbidden@.len() && ord[p].forbidden@[t] == c;
                } else {
                    let q = choose|q: int| 0 <= q < p && (#[trigger] ord[q]).node == c;
                }
            }
            assert forall|v: usize| v < n && reachable(g, start, v) implies vs[v as int] by {
                let p = choose|p: Seq<usize>| is_path(g, p, start, v);
                lemma_path_covered(g, vs, p, start, v);
            }
        }
        (order, visited)
    }
}

// ---------------------------------------------------------------------------
// The traversal, restated as a function: one step per loop iteration. The
// executable walk returns exactly this function's result, which pins the
// visitation order (and with it everything compiled from it) to the graph
// and the start node alone.
// ---------------------------------------------------------------------------

/// The whole working state of the traversal.
#[verifier::ext_equal]
pub struct WalkState {
    pub stack: Seq<(usize, usize)>,
    pub visited: Seq<bool>,
    pub onpath: Seq<bool>,
    pub cuts: Seq<Seq<usize>>,
    pub order: Seq<(usize, Seq<usize>)>,
}

/// The emitted visits as plain pairs of node and forbidden children.
pub open spec fn order_view(order: Seq<PostVisit>) -> Seq<(usize, Seq<usize>)> {
    Seq::new(order.len(), |i: int| ((order[i].node, order[i].forbidden@)))
}

/// The recorded cut lists as plain sequences.
pub open spec fn cuts_view(cuts: Seq<Vec<usize>>) -> Seq<Seq<usize>> {
    Seq::new(cuts.len(), |i: int| cuts[i]@)
}

/// Whether the graph's sizes fit the machine, as they do for any graph
/// whose adjacency lists are vectors.
pub open spec fn sizes_bounded(g: GraphView) -> bool {
    &&& g.nodes.len() <= usize::MAX
    &&& forall|i: int|
        0 <= i < g.nodes.len() ==> (#[trigger] g.nodes[i]).outgoing.len() <= usize::MAX
}

/// What the traversal loop maintains of its state, as far as termination
/// needs it: valid and distinct frames, the current path marked on all but
/// a fresh top frame, and the path within the visited set.
pub open spec fn state_inv(g: GraphView, st: WalkState) -> bool {
    &&& g.wf()
    &&& sizes_bounded(g)
    &&& st.visited.len() == g.nodes.len()
    &&& st.onpath.len() == g.nodes.len()
    &&& st.cuts.len() == g.nodes.len()
    &&& forall|s: int|
        0 <= s < st.stack.len() ==> (#[trigger] st.stack[s]).0 < g.nodes.len() && st.stack[s].1
            <= out_deg(g, st.stack[s].0 as int)
    &&& forall|s1: int, s2: int|
        0 <= s1 < s2 < st.stack.len() ==> (#[trigger] st.stack[s1]).0 != (
        #[trigger] st.stack[s2]).0
    &&& forall|s: int| 0 <= s < st.stack.len() - 1 ==> st.onpath[(#[trigger] st.stack[s]).0 as int]
    &&& st.stack.len() > 0 ==> (st.onpath[st.stack.last().0 as int] || (st.stack.last().1 == 0
        && !st.visited[st.stack.last().0 as int]))
    &&& forall|v: int| 0 <= v < g.nodes.len() && st.onpath[v] ==> st.visited[v]
}

/// One iteration of the traversal loop: pop a frame, mark its node, and
/// either schedule the next child or emit the node.
pub open spec fn walk_step(g: GraphView, st: WalkState) -> WalkState
    recommends
        st.stack.len() > 0,
{
    let node = st.stack.last().0;
    let k = st.stack.last().1;
    let popped = st.stack.drop_last();
    let on1 = st.onpath.update(node as int, true);
    let vs1 = st.visited.update(node as int, true);
    if k < out_deg(g, node as int) {
        let with_parent = popped.push((node, (k + 1) as usize));
        let c = child_at(g, node as int, k as int);
        let cuts1 = if on1[c as int] {
            st.cuts.update(node as int, st.cuts[node as int].push(c))
        } else {
            st.cuts
        };
        let stack1 = if !vs1[c as int] {
            with_parent.push((c, 0usize))
        } else {
            with_parent
        };
        WalkState { stack: stack1, visited: vs1, onpath: on1, cuts: cuts1, order: st.order }
    } else {
        WalkState {
            stack: popped,
            visited: vs1,
            onpath: on1.update(node as int, false),
            cuts: st.cuts,
            order: st.order.push((node, st.cuts[node as int])),
        }
    }
}

/// The traversal's starting state.
pub open spec fn walk_init(g: GraphView, start: usize) -> WalkState {
    WalkState {
        stack: seq![(start, 0usize)],
        visited: Seq::new(g.nodes.len(), |i: int| false),
        onpath: Seq::new(g.nodes.len(), |i: int| false),
        cuts: Seq::new(g.nodes.len(), |i: int| Seq::<usize>::empty()),
        order: Seq::empty(),
    }
}

/// The state the traversal ends in: steps run until the stack is empty.
pub open spec fn dfs_run(g: GraphView, st: WalkState) -> WalkState
    decreases walk_measure(g, st.visited, st.stack),
        when state_inv(g, st)
        via dfs_run_decreases
{
    if st.stack.len() == 0 {
        st
    } else {
        dfs_run(g, walk_step(g, st))
    }
}

#[via_fn]
proof fn dfs_run_decreases(g: GraphView, st: WalkState) {
    if state_inv(g, st) && st.stack.len() > 0 {
        let node = st.stack.last().0;
        let k = st.stack.last().1;
        let popped = st.stack.drop_last();
        let vs1 = st.visited.update(node as int, true);
        let stepped = walk_step(g, st);
        assert(st.stack[st.stack.len() - 1] == st.stack.last());
        assert(forall|s: int| 0 <= s < popped.len() ==> (#[trigger] popped[s]).0 != node);
        if st.visited[node as int] {
            assert(vs1 =~= st.visited);
        } else {
            assert(!st.onpath[node as int]);
            assert(k == 0);
            lemma_unvisited_weight_update(g, st.visited, node as int, g.nodes.len() as int);
        }
        lemma_stack_weight_agree(g, st.visited, vs1, popped);
        assert(stack_weight(g, st.visited, st.stack) == stack_weight(g, st.visited, popped)
            + frame_cost(g, st.visited, st.stack.last()));
        if k < out_deg(g, node as int) {
            let with_parent = popped.push((node, (k + 1) as usize));
            let c = child_at(g, node as int, k as int);
            lemma_stack_weight_push(g, vs1, popped, (node, (k + 1) as usize));
            if !vs1[c as int] {
                lemma_stack_weight_push(g, vs1, with_parent, (c, 0usize));
            }
            assert(walk_measure(g, stepped.visited, stepped.stack) < walk_measure(
                g,
                st.visited,
                st.stack,
            ));
        } else {
            assert(walk_measure(g, stepped.visited, stepped.stack) < walk_measure(
                g,
                st.visited,
                st.stack,
            ));
        }
    }
}

} // verus!
