//! The object compiler: drives the cycle-safe traversal from a chosen root
//! and emits, for every visited node, a content-addressed tree object that
//! references the already-compiled trees of its children and the citation
//! blobs attached to it; finally it wraps the root's tree in a commit and
//! publishes a branch at it.
//!
//! The object ids are content hashes, so the compiled root tree id is a
//! function of the graph, the traversal order and the attached payloads
//! alone: compiling the same data twice yields the same id.

use vstd::prelude::*;

use vstd::hash_map::HashMapWithView;

use crate::graph::{roots_spec, Graph, GraphView, Nd};
use crate::store::{
    blob_oid_of, builder_view, cite_hashes_get_all, cite_hashes_view, commit_tree, new_treebuilder,
    no_entries, publish_branch, put_text_blob, tree_insert, tree_oid_of, tree_write, CiteHashes,
};
use crate::cites::{cite_render_spec, cites_fold, Cites, CiteView};
use crate::normalize::{normalize_spec, Normalizer};
use crate::store::{cite_hashes_insert, cite_hashes_insert_spec};
use crate::text::WikiNode;
use crate::walker::{child_at, dfs_run, emitted, lemma_reachable_self, order_view, post_order_ok, valid_post_order, walk_init, PostVisit};

verus! {

broadcast use vstd::std_specs::hash::axiom_usize_obeys_hash_table_key_model;

/// Why a compilation fails: no root exists to compile from, or the object
/// store reported a failure, which aborts the walk at once so that no
/// partial tree is published.
pub enum CompileError {
    NoRootFound,
    ObjectStoreFailure(git2::Error),
}

/// The base-36 digit for `d`: a decimal digit below ten, a lowercase
/// letter from ten on.
pub open spec fn radix36_digit(d: u64) -> char
    recommends
        d < 36,
{
    if d < 10 {
        ((48 + d) as u8) as char
    } else {
        ((87 + d) as u8) as char
    }
}

/// The base-36 rendering of `i`: most significant digit first, lowercase,
/// unpadded; zero renders as one digit.
pub open spec fn radix36_spec(i: u64) -> Seq<char>
    decreases i,
{
    if i < 36 {
        seq![radix36_digit(i)]
    } else {
        radix36_spec((i / 36) as u64) + seq![radix36_digit((i % 36) as u64)]
    }
}

/// A base-36 rendering holds at least one digit.
proof fn lemma_radix36_nonempty(i: u64)
    ensures
        radix36_spec(i).len() >= 1,
    decreases i,
{
    if i >= 36 {
        lemma_radix36_nonempty((i / 36) as u64);
    }
}

/// Distinct numbers render distinctly in base 36.
pub proof fn lemma_radix36_injective(i: u64, j: u64)
    requires
        radix36_spec(i) === radix36_spec(j),
    ensures
        i == j,
    decreases i,
{
    if i < 36 && j < 36 {
        assert(radix36_spec(i)[0] == radix36_digit(i));
        assert(radix36_spec(j)[0] == radix36_digit(j));
        assert(radix36_digit(i) == radix36_digit(j));
        assert(i == j);
    } else if i >= 36 && j >= 36 {
        let di = (i % 36) as u64;
        let dj = (j % 36) as u64;
        assert(radix36_spec(i).last() == radix36_digit(di));
        assert(radix36_spec(j).last() == radix36_digit(dj));
        assert(di == dj);
        assert(radix36_spec(i).drop_last() =~= radix36_spec((i / 36) as u64));
        assert(radix36_spec(j).drop_last() =~= radix36_spec((j / 36) as u64));
        lemma_radix36_injective((i / 36) as u64, (j / 36) as u64);
        assert(i == j);
    } else if i < 36 {
        lemma_radix36_nonempty((j / 36) as u64);
        assert(radix36_spec(j).len() >= 2);
        assert(radix36_spec(i).len() == 1);
        assert(false);
    } else {
        lemma_radix36_nonempty((i / 36) as u64);
        assert(radix36_spec(i).len() >= 2);
        assert(radix36_spec(j).len() == 1);
        assert(false);
    }
}

/// Relies on radix_fmt::radix_36 and its Display impl: renders in base 36,
/// most significant digit first, decimal digits below ten and lowercase
/// letters from ten on, unpadded — exactly `radix36_spec`.
#[verifier::external_body]
fn to_radix36(i: u64) -> (r: String)
    ensures
        r@ === radix36_spec(i),
{
    format!("{}", radix_fmt::radix_36(i))
}

/// `s` with every path separator replaced by a dash, fit for use as a tree
/// entry name.
pub open spec fn dash_slashes(s: Seq<char>) -> Seq<char> {
    Seq::new(
        s.len(),
        |i: int|
            if s[i] == '/' {
                '-'
            } else {
                s[i]
            },
    )
}

/// The tree entry name of the edge `from -> to`: the edge's label if it is
/// not empty, the child's display name otherwise, separators dashed.
pub open spec fn file_name_spec(g: GraphView, from: int, to: int) -> Seq<char> {
    let el = g.edge_labels[(from, to)];
    if el.len() > 0 {
        dash_slashes(el)
    } else {
        dash_slashes(g.labels[to].0)
    }
}

/// The entry name a citation gets: its one-based ordinal in base 36,
/// a stable, sortable, collision-free short key.
pub open spec fn cite_name_spec(number: u64) -> Seq<char> {
    radix36_spec(number) + seq!['.', 't', 'x', 't']
}

/// Law: the ordinal entry names of a node's citations are collision-free:
/// distinct ordinals get distinct names.
pub proof fn lemma_cite_names_distinct(a: u64, b: u64)
    requires
        a != b,
    ensures
        cite_name_spec(a) !== cite_name_spec(b),
{
    if cite_name_spec(a) === cite_name_spec(b) {
        let ra = radix36_spec(a);
        let rb = radix36_spec(b);
        assert(cite_name_spec(a) === ra + seq!['.', 't', 'x', 't']);
        assert(cite_name_spec(b) === rb + seq!['.', 't', 'x', 't']);
        assert(cite_name_spec(a).len() == ra.len() + 4);
        assert(cite_name_spec(b).len() == rb.len() + 4);
        assert(ra.len() == rb.len());
        assert forall|t: int| 0 <= t < ra.len() implies ra[t] == rb[t] by {
            assert(cite_name_spec(a)[t] == ra[t]);
            assert(cite_name_spec(b)[t] == rb[t]);
        }
        assert(ra =~= rb);
        lemma_radix36_injective(a, b);
    }
}

/// The name of the marker entry holding a node's own display name.
pub open spec fn marker_name(kind: bool) -> Seq<char> {
    if kind {
        seq!['c', 'a', 't', '.', 't', 'x', 't']
    } else {
        seq!['a', 'r', 't', '.', 't', 'x', 't']
    }
}

/// The tree entries for the first `j` outgoing edges of a visit: one entry
/// per edge whose target is not forbidden, naming the child's
/// already-compiled tree.
pub open spec fn child_entries(
    g: GraphView,
    node: int,
    forbidden: Seq<usize>,
    prev: Map<int, Seq<u8>>,
    base: Map<Seq<char>, (Seq<u8>, i32)>,
    j: int,
) -> Map<Seq<char>, (Seq<u8>, i32)>
    decreases j,
{
    if j <= 0 {
        base
    } else {
        let m = child_entries(g, node, forbidden, prev, base, j - 1);
        let c = g.nodes[node].outgoing[j - 1];
        if forbidden.contains(c) {
            m
        } else {
            m.insert(file_name_spec(g, node, c as int), (prev[c as int], 0o040000))
        }
    }
}

/// The tree entries for the first `j` citations attached to a node.
pub open spec fn cite_entries(
    base: Map<Seq<char>, (Seq<u8>, i32)>,
    list: Seq<Seq<u8>>,
    j: int,
) -> Map<Seq<char>, (Seq<u8>, i32)>
    decreases j,
{
    if j <= 0 {
        base
    } else {
        cite_entries(base, list, j - 1).insert(
            cite_name_spec(j as u64),
            (list[j - 1], 0o100644),
        )
    }
}

/// All tree entries of one visit (the visited node paired with its
/// forbidden children): the marker entry named for the node's kind and
/// holding its display name, the child entries, and the citation entries.
pub open spec fn node_entries(
    g: GraphView,
    visit: (usize, Seq<usize>),
    prev: Map<int, Seq<u8>>,
    cites: Map<int, Seq<Seq<u8>>>,
) -> Map<Seq<char>, (Seq<u8>, i32)> {
    let node = visit.0 as int;
    let base = no_entries().insert(
        marker_name(g.labels[node].1),
        (blob_oid_of(g.labels[node].0), 0o100644),
    );
    let with_children = child_entries(
        g,
        node,
        visit.1,
        prev,
        base,
        g.nodes[node].outgoing.len() as int,
    );
    if cites.dom().contains(node) {
        cite_entries(with_children, cites[node], cites[node].len() as int)
    } else {
        with_children
    }
}

/// The tree id each of the first `upto` visits compiles to: in post-order,
/// each node's tree embeds its children's already-recorded ids.
pub open spec fn compiled_hashes(
    g: GraphView,
    order: Seq<(usize, Seq<usize>)>,
    cites: Map<int, Seq<Seq<u8>>>,
    upto: int,
) -> Map<int, Seq<u8>>
    decreases upto,
{
    if upto <= 0 {
        Map::empty()
    } else {
        let prev = compiled_hashes(g, order, cites, upto - 1);
        prev.insert(
            order[upto - 1].0 as int,
            tree_oid_of(node_entries(g, order[upto - 1], prev, cites)),
        )
    }
}

/// A node has a compiled hash exactly when some earlier visit is of it.
pub proof fn lemma_compiled_hashes_dom(
    g: GraphView,
    order: Seq<(usize, Seq<usize>)>,
    cites: Map<int, Seq<Seq<u8>>>,
    upto: int,
)
    requires
        0 <= upto <= order.len(),
    ensures
        forall|k: int|
            compiled_hashes(g, order, cites, upto).dom().contains(k) <==> exists|p: int|
                0 <= p < upto && (#[trigger] order[p]).0 == k,
    decreases upto,
{
    if upto > 0 {
        lemma_compiled_hashes_dom(g, order, cites, upto - 1);
        assert forall|k: int|
            compiled_hashes(g, order, cites, upto).dom().contains(k) implies exists|p: int|
            0 <= p < upto && (#[trigger] order[p]).0 == k by {
            if k == order[upto - 1].0 as int {
                assert((#[trigger] order[upto - 1]).0 == k);
            } else {
                assert(compiled_hashes(g, order, cites, upto - 1).dom().contains(k));
                let p = choose|p: int| 0 <= p < upto - 1 && (#[trigger] order[p]).0 == k;
                assert((#[trigger] order[p]).0 == k);
            }
        }
        assert forall|k: int|
            (exists|p: int| 0 <= p < upto && (#[trigger] order[p]).0 == k) implies compiled_hashes(
            g,
            order,
            cites,
            upto,
        ).dom().contains(k) by {
            let p = choose|p: int| 0 <= p < upto && (#[trigger] order[p]).0 == k;
            if p < upto - 1 {
                assert(exists|q: int| 0 <= q < upto - 1 && (#[trigger] order[q]).0 == k);
                assert(compiled_hashes(g, order, cites, upto - 1).dom().contains(k));
            }
        }
    }
}

/// Whether every recorded citation blob id is a real 20-byte object id.
pub open spec fn cites_ok(cites: Map<int, Seq<Seq<u8>>>) -> bool {
    forall|k: int, t: int|
        cites.dom().contains(k) && 0 <= t < cites[k].len() ==> (#[trigger] cites[k][t]).len()
            == 20
}

/// The entry name of the edge `from -> to`: the edge's label if it is not
/// empty, the child's display name otherwise, with path separators replaced
/// by dashes so the name fits one tree level.
pub fn get_git_file_name(graph: &Graph, from: Nd, to: Nd) -> (r: String)
    requires
        graph@.wf(),
        graph@.edge_labels.dom().contains((from as int, to as int)),
        to < graph@.nodes.len(),
    ensures
        r@ === file_name_spec(graph@, from as int, to as int),
{
    let el = graph.get_edge_label(&(from, to));
    let base = if el.as_str().is_empty() {
        graph.get_vertex_label(to).0
    } else {
        el
    };
    let cs = crate::chars::chars_of(base.as_str());
    let mut out: Vec<char> = Vec::new();
    let mut i: usize = 0;
    while i < cs.len()
        invariant
            0 <= i <= cs@.len(),
            out@ === dash_slashes(cs@).take(i as int),
        decreases cs@.len() - i,
    {
        let c = cs[i];
        if c == '/' {
            out.push('-');
        } else {
            out.push(c);
        }
        proof {
            assert(out@ =~= dash_slashes(cs@).take(i + 1));
        }
        i += 1;
    }
    proof {
        assert(dash_slashes(cs@).take(cs@.len() as int) =~= dash_slashes(cs@));
    }
    crate::chars::string_from_chars(&out)
}

/// Where compilation starts: the node carrying the search identity if one
/// is given and found, else the first root, else nowhere.
pub open spec fn select_root_spec(g: GraphView, search: Seq<char>) -> Option<int> {
    if search.len() > 0 && g.has_label((search, true)) {
        Some(g.index_of((search, true)))
    } else if roots_spec(g.nodes).len() > 0 {
        Some(roots_spec(g.nodes)[0] as int)
    } else {
        None
    }
}

/// Every root index is a node index.
proof fn lemma_roots_bounded(nodes: Seq<crate::graph::NodeView>)
    ensures
        forall|t: int|
            0 <= t < roots_spec(nodes).len() ==> (#[trigger] roots_spec(nodes)[t]) < nodes.len(),
    decreases nodes.len(),
{
    if nodes.len() > 0 {
        lemma_roots_bounded(nodes.drop_last());
        let r0 = roots_spec(nodes.drop_last());
        assert forall|t: int|
            0 <= t < roots_spec(nodes).len() implies (#[trigger] roots_spec(nodes)[t])
            < nodes.len() by {
            if nodes.last().incoming.len() == 0 {
                assert(roots_spec(nodes) === r0.push((nodes.len() - 1) as usize));
                if t < r0.len() {
                    assert(r0[t] < nodes.drop_last().len());
                }
            } else {
                assert(roots_spec(nodes) === r0);
                assert(r0[t] < nodes.drop_last().len());
            }
        }
    }
}

/// Picks the node to compile from: the node carrying `(search, category)`
/// when `search` is not empty and such a node exists, otherwise the first
/// root; fails with `NoRootFound` when neither exists.
pub fn select_root(graph: &Graph, search: &String) -> (r: Result<Nd, CompileError>)
    requires
        graph@.wf(),
    ensures
        match r {
            Ok(i) => select_root_spec(graph@, search@) == Some(i as int) && i
                < graph@.nodes.len(),
            Err(e) => select_root_spec(graph@, search@) is None && e is NoRootFound,
        },
{
    proof {
        lemma_roots_bounded(graph@.nodes);
    }
    let found = if !search.as_str().is_empty() {
        match graph.find_vertex(&(search.clone(), true)) {
            None => {
                let roots = graph.roots();
                if roots.len() > 0 {
                    Some(roots[0])
                } else {
                    None
                }
            },
            some => some,
        }
    } else {
        let roots = graph.roots();
        if roots.len() > 0 {
            Some(roots[0])
        } else {
            None
        }
    };
    match found {
        Some(root) => {
            proof {
                let l = (search@, true);
                if search@.len() > 0 && graph@.has_label(l) {
                    let k = graph@.index_of(l);
                    assert(graph@.labels.dom().contains(k) && graph@.labels[k] === l);
                }
            }
            Ok(root)
        },
        None => Err(CompileError::NoRootFound),
    }
}

/// Compiles every visit of a post-order traversal to a tree object: the
/// marker blob under a name fixed by the node's kind, one entry per
/// non-forbidden outgoing edge naming the child's already-compiled tree,
/// and one entry per attached citation blob under its base-36 ordinal.
/// Returns the map from node index to compiled tree id.
pub fn compile_order(
    graph: &Graph,
    order: &Vec<PostVisit>,
    cite_hashes: &CiteHashes,
    repo: &git2::Repository,
) -> (r: Result<HashMapWithView<usize, Vec<u8>>, CompileError>)
    requires
        graph@.wf(),
        forall|p: int|
            0 <= p < order@.len() ==> (#[trigger] order@[p]).node < graph@.nodes.len(),
        post_order_ok(graph@, order@),
        cites_ok(cite_hashes_view(*cite_hashes)),
    ensures
        r matches Err(e) ==> e is ObjectStoreFailure,
        r matches Ok(m) ==> ({
            let cm = compiled_hashes(
                graph@,
                order_view(order@),
                cite_hashes_view(*cite_hashes),
                order@.len() as int,
            );
            &&& forall|k: usize| m@.contains_key(k) <==> cm.dom().contains(k as int)
            &&& forall|k: usize|
                m@.contains_key(k) ==> (#[trigger] m@[k])@ === cm[k as int] && m@[k]@.len() == 20
        }),
{
    let ghost g = graph@;
    let ghost cv = cite_hashes_view(*cite_hashes);
    let ghost ov = order_view(order@);
    let mut hashes: HashMapWithView<usize, Vec<u8>> = HashMapWithView::new();
    let mut i: usize = 0;
    while i < order.len()
        invariant
            g === graph@,
            g.wf(),
            cv === cite_hashes_view(*cite_hashes),
            ov === order_view(order@),
            cites_ok(cv),
            forall|p: int| 0 <= p < order@.len() ==> (#[trigger] order@[p]).node < g.nodes.len(),
            post_order_ok(g, order@),
            0 <= i <= order@.len(),
            forall|k: usize|
                hashes@.contains_key(k) <==> compiled_hashes(
                    g,
                    ov,
                    cv,
                    i as int,
                ).dom().contains(k as int),
            forall|k: usize|
                hashes@.contains_key(k) ==> (#[trigger] hashes@[k])@ === compiled_hashes(
                    g,
                    ov,
                    cv,
                    i as int,
                )[k as int] && hashes@[k]@.len() == 20,
        decreases order@.len() - i,
    {
        let ghost prev = compiled_hashes(g, ov, cv, i as int);
        let visit = &order[i];
        let node = visit.node;
        let label = graph.get_vertex_label(node);
        let name_blob = match put_text_blob(repo, label.0.as_str()) {
            Ok(id) => id,
            Err(e) => return Err(CompileError::ObjectStoreFailure(e)),
        };
        let mut builder = match new_treebuilder(repo) {
            Ok(b) => b,
            Err(e) => return Err(CompileError::ObjectStoreFailure(e)),
        };
        let marker = if label.1 {
            String::from_str("cat.txt")
        } else {
            String::from_str("art.txt")
        };
        proof {
            reveal_strlit("cat.txt");
            reveal_strlit("art.txt");
            assert(marker@ === marker_name(g.labels[node as int].1));
        }
        if let Err(e) = tree_insert(&mut builder, &marker, &name_blob, 0o100644) {
            return Err(CompileError::ObjectStoreFailure(e));
        }
        let ghost base = no_entries().insert(
            marker_name(g.labels[node as int].1),
            (blob_oid_of(g.labels[node as int].0), 0o100644),
        );
        proof {
            assert(builder_view(builder) =~= base);
        }
        let deg = graph.out_degree(node);
        let mut j: usize = 0;
        while j < deg
            invariant
                g === graph@,
                g.wf(),
                cv === cite_hashes_view(*cite_hashes),
                ov === order_view(order@),
                post_order_ok(g, order@),
                0 <= i < order@.len(),
                order@[i as int] === *visit,
                node == visit.node,
                node < g.nodes.len(),
                deg == g.nodes[node as int].outgoing.len(),
                0 <= j <= deg,
                prev === compiled_hashes(g, ov, cv, i as int),
                forall|k: usize|
                    hashes@.contains_key(k) <==> prev.dom().contains(k as int),
                forall|k: usize|
                    hashes@.contains_key(k) ==> (#[trigger] hashes@[k])@ === prev[k as int]
                        && hashes@[k]@.len() == 20,
                builder_view(builder) === child_entries(
                    g,
                    node as int,
                    visit.forbidden@,
                    prev,
                    base,
                    j as int,
                ),
            decreases deg - j,
        {
            let child = graph.out_child(node, j);
            proof {
                assert(child_at(g, order@[i as int].node as int, j as int) == child);
            }
            if !contains_index(&visit.forbidden, child) {
                proof {
                    assert(emitted_before(order@, i as int, child as int)) by {
                        assert(order@[i as int].forbidden@.contains(child)
                            || exists|q: int|
                            0 <= q < i && (#[trigger] order@[q]).node == child);
                    }
                    let q = choose|q: int|
                        0 <= q < i && (#[trigger] order@[q]).node == child;
                    assert(ov[q].0 == child);
                    lemma_compiled_hashes_dom(g, ov, cv, i as int);
                    assert(prev.dom().contains(child as int));
                }
                let name = get_git_file_name(graph, node, child);
                let child_hash = hashes.get(&child);
                let child_hash = child_hash.unwrap();
                if let Err(e) = tree_insert(&mut builder, &name, child_hash, 0o040000) {
                    return Err(CompileError::ObjectStoreFailure(e));
                }
            }
            j += 1;
        }
        let mut with_cites = builder;
        let ghost after_children = child_entries(
            g,
            node as int,
            visit.forbidden@,
            prev,
            base,
            deg as int,
        );
        match cite_hashes_get_all(cite_hashes, node) {
            Some(list) => {
                let mut k: usize = 0;
                while k < list.len()
                    invariant
                        g === graph@,
                        cv === cite_hashes_view(*cite_hashes),
                        cites_ok(cv),
                        node < g.nodes.len(),
                        cv.dom().contains(node as int),
                        list.deep_view() === cv[node as int],
                        0 <= k <= list@.len(),
                        builder_view(with_cites) === cite_entries(
                            after_children,
                            cv[node as int],
                            k as int,
                        ),
                    decreases list@.len() - k,
                {
                    let number = (k as u64) + 1;
                    let mut cname = to_radix36(number);
                    cname.append(".txt");
                    proof {
                        reveal_strlit(".txt");
                        assert(cname@ === cite_name_spec(number));
                        assert(list@[k as int]@ === cv[node as int][k as int]);
                    }
                    if let Err(e) = tree_insert(&mut with_cites, &cname, &list[k], 0o100644) {
                        return Err(CompileError::ObjectStoreFailure(e));
                    }
                    k += 1;
                }
            },
            None => {},
        }
        proof {
            assert(ov[i as int] === ((visit.node, visit.forbidden@)));
            assert(builder_view(with_cites) === node_entries(g, ov[i as int], prev, cv));
        }
        let tree_oid = match tree_write(&with_cites) {
            Ok(id) => id,
            Err(e) => return Err(CompileError::ObjectStoreFailure(e)),
        };
        hashes.insert(node, tree_oid);
        proof {
            assert(compiled_hashes(g, ov, cv, i + 1) === prev.insert(
                node as int,
                tree_oid_of(node_entries(g, ov[i as int], prev, cv)),
            ));
        }
        i += 1;
    }
    Ok(hashes)
}

/// Whether some visit before position `p` is of node `v`.
pub open spec fn emitted_before(order: Seq<PostVisit>, p: int, v: int) -> bool {
    exists|q: int| 0 <= q < p && (#[trigger] order[q]).node == v
}

/// Whether `v@.contains(x)`.
fn contains_index(v: &Vec<usize>, x: usize) -> (r: bool)
    ensures
        r == v@.contains(x),
{
    let mut i: usize = 0;
    while i < v.len()
        invariant
            0 <= i <= v@.len(),
            forall|t: int| 0 <= t < i ==> (#[trigger] v@[t]) != x,
        decreases v@.len() - i,
    {
        if v[i] == x {
            return true;
        }
        i += 1;
    }
    false
}

/// The outcome of a full compilation: the root node's compiled tree id and
/// the published commit's id.
pub struct StoreOutcome {
    pub root_tree: Vec<u8>,
    pub commit: Vec<u8>,
}

/// A copy of a byte string.
fn copy_bytes(src: &Vec<u8>) -> (r: Vec<u8>)
    ensures
        r@ === src@,
{
    let mut r: Vec<u8> = Vec::new();
    let mut i: usize = 0;
    while i < src.len()
        invariant
            0 <= i <= src@.len(),
            r@ === src@.take(i as int),
        decreases src@.len() - i,
    {
        r.push(src[i]);
        proof {
            assert(src@.take(i as int).push(src@[i as int]) =~= src@.take(i + 1));
        }
        i += 1;
    }
    proof {
        assert(src@.take(src@.len() as int) =~= src@);
    }
    r
}

/// Walks the graph from `root`, compiles every visited node bottom-up, and
/// publishes the root's tree as a parentless commit under the branch name
/// `master`. Nothing is published when any store call fails.
pub fn store_categories_in_git(
    graph: &Graph,
    root: Nd,
    cite_hashes: &CiteHashes,
    repo: &git2::Repository,
) -> (r: Result<StoreOutcome, CompileError>)
    requires
        graph@.wf(),
        root < graph@.nodes.len(),
        cites_ok(cite_hashes_view(*cite_hashes)),
    ensures
        r matches Err(e) ==> e is ObjectStoreFailure,
        r matches Ok(out) ==> out.root_tree@ === compiled_root_spec(
            graph@,
            root,
            cite_hashes_view(*cite_hashes),
        ) && out.root_tree@.len() == 20 && out.commit@.len() == 20,
        r matches Ok(out) ==> exists|order: Seq<PostVisit>|
            {
                &&& #[trigger] valid_post_order(graph@, root, order)
                &&& out.root_tree@ === compiled_hashes(
                    graph@,
                    order_view(order),
                    cite_hashes_view(*cite_hashes),
                    order.len() as int,
                )[root as int]
            },
{
    let walked = graph.walk_dfs_post_order(root);
    let order = walked.0;
    let hashes = match compile_order(graph, &order, cite_hashes, repo) {
        Ok(m) => m,
        Err(e) => return Err(e),
    };
    proof {
        lemma_reachable_self(graph@, root);
        assert(emitted(order@, root as int));
        let q = choose|q: int| 0 <= q < order@.len() && (#[trigger] order@[q]).node == root;
        assert(order_view(order@)[q].0 == root);
        lemma_compiled_hashes_dom(
            graph@,
            order_view(order@),
            cite_hashes_view(*cite_hashes),
            order@.len() as int,
        );
        assert(compiled_hashes(
            graph@,
            order_view(order@),
            cite_hashes_view(*cite_hashes),
            order@.len() as int,
        ).dom().contains(root as int));
    }
    let root_hash = hashes.get(&root);
    let root_hash = root_hash.unwrap();
    let commit = match commit_tree(
        repo,
        root_hash,
        "WikiQuotes",
        "anonymous@pl.wikiquote.org",
        "init repo",
    ) {
        Ok(id) => id,
        Err(e) => return Err(CompileError::ObjectStoreFailure(e)),
    };
    if let Err(e) = publish_branch(repo, "master", &commit) {
        return Err(CompileError::ObjectStoreFailure(e));
    }
    let out = StoreOutcome { root_tree: copy_bytes(root_hash), commit };
    proof {
        assert(valid_post_order(graph@, root, order@));
    }
    Ok(out)
}

/// The root content hash the whole pipeline compiles to: the traversal
/// order is the one the cycle-safe walk yields, and every object id in the
/// compiled tree is a content hash, so this value is a function of the
/// graph, the chosen root and the payloads alone.
pub open spec fn compiled_root_spec(
    g: GraphView,
    root: usize,
    cites: Map<int, Seq<Seq<u8>>>,
) -> Seq<u8> {
    let order = dfs_run(g, walk_init(g, root)).order;
    compiled_hashes(g, order, cites, order.len() as int)[root as int]
}

/// Law: compilation is deterministic. Compiling the same graph and payload
/// set from the same root twice yields identical root content hashes: any
/// two root tree ids that `store_categories_in_git` can return for the
/// same data are equal.
pub proof fn lemma_compile_deterministic(
    g: GraphView,
    root: usize,
    cites: Map<int, Seq<Seq<u8>>>,
    t1: Seq<u8>,
    t2: Seq<u8>,
)
    requires
        t1 === compiled_root_spec(g, root, cites),
        t2 === compiled_root_spec(g, root, cites),
    ensures
        t1 === t2,
{
}

/// The citation-blob map after storing a list of rendered citations for
/// node `v`, in order.
pub open spec fn article_cites_fold(
    m: Map<int, Seq<Seq<u8>>>,
    v: int,
    cs: Seq<CiteView>,
) -> Map<int, Seq<Seq<u8>>>
    decreases cs.len(),
{
    if cs.len() == 0 {
        m
    } else {
        article_cites_fold(
            cite_hashes_insert_spec(m, v, blob_oid_of(cite_render_spec(cs[0]))),
            v,
            cs.drop_first(),
        )
    }
}

/// Whether a page record describes an ordinary wikitext article.
pub fn is_article_page(namespace: u32, format: &Option<String>, model: &Option<String>) -> (r:
    bool)
    ensures
        r == (namespace == 0 && (format matches Some(f) && f@ === "text/x-wiki"@) && (
        model matches Some(m) && m@ === "wikitext"@)),
{
    if namespace != 0 {
        return false;
    }
    match (format, model) {
        (Some(f), Some(m)) => {
            let want_format = String::from_str("text/x-wiki");
            let want_model = String::from_str("wikitext");
            f.eq(&want_format) && m.eq(&want_model)
        },
        _ => false,
    }
}

/// For one article page: when its normalized title names an existing
/// non-category node, extracts the page's citations, stores each rendered
/// citation as a blob, and records the blob ids for that node; any other
/// page leaves the map untouched. Heading levels below one do not occur in
/// parser output.
pub fn store_article_cites(
    graph: &Graph,
    title: &str,
    parsed: &Vec<WikiNode>,
    repo: &git2::Repository,
    cite_hashes: &mut CiteHashes,
) -> (r: Result<Option<Nd>, CompileError>)
    requires
        graph@.wf(),
        forall|i: int|
            0 <= i < parsed@.len() ==> ((#[trigger] parsed@[i]) matches WikiNode::Heading {
                level,
                ..
            } ==> level >= 1),
        cites_ok(cite_hashes_view(*old(cite_hashes))),
    ensures
        cites_ok(cite_hashes_view(*final(cite_hashes))),
        ({
            let t = normalize_spec(title@);
            match r {
                Ok(found) => match found {
                    Some(v) => !t.1 && graph@.has_label((t.0, t.1)) && graph@.labels[v as int]
                        === (t.0, t.1) && cite_hashes_view(*final(cite_hashes))
                        === article_cites_fold(
                        cite_hashes_view(*old(cite_hashes)),
                        v as int,
                        cites_fold(parsed@, seq![title@]).0,
                    ),
                    None => (t.1 || !graph@.has_label((t.0, t.1))) && cite_hashes_view(
                        *final(cite_hashes),
                    ) === cite_hashes_view(*old(cite_hashes)),
                },
                Err(e) => e is ObjectStoreFailure,
            }
        }),
{
    let ghost m0 = cite_hashes_view(*cite_hashes);
    let normalizer = Normalizer {};
    let cat = normalizer.normalize_category_name(title);
    if cat.1 {
        return Ok(None);
    }
    let v = match graph.find_vertex(&cat) {
        Some(v) => v,
        None => {
            return Ok(None);
        },
    };
    let mut extr = Cites { cites: Vec::new() };
    proof {
        assert(extr@ =~= Seq::<CiteView>::empty());
    }
    extr.extract_cites(parsed, title);
    let ghost all = cites_fold(parsed@, seq![title@]).0;
    proof {
        assert(Seq::<CiteView>::empty() + all =~= all);
        assert(extr@ === all);
    }
    let mut k: usize = 0;
    proof {
        assert(all.skip(0) =~= all);
    }
    while k < extr.cites.len()
        invariant
            0 <= k <= extr.cites@.len(),
            extr@ === all,
            cites_ok(cite_hashes_view(*cite_hashes)),
            article_cites_fold(m0, v as int, all) === article_cites_fold(
                cite_hashes_view(*cite_hashes),
                v as int,
                all.skip(k as int),
            ),
        decreases extr.cites@.len() - k,
    {
        let ghost suffix = all.skip(k as int);
        proof {
            assert(suffix[0] === all[k as int]);
            assert(suffix.drop_first() =~= all.skip(k + 1));
            assert(extr.cites@[k as int]@ === all[k as int]);
        }
        let rendered = extr.cites[k].render();
        let id = match put_text_blob(repo, rendered.as_str()) {
            Ok(id) => id,
            Err(e) => return Err(CompileError::ObjectStoreFailure(e)),
        };
        let ghost before = cite_hashes_view(*cite_hashes);
        cite_hashes_insert(cite_hashes, v, id);
        proof {
            let after = cite_hashes_view(*cite_hashes);
            assert(after === cite_hashes_insert_spec(
                before,
                v as int,
                blob_oid_of(cite_render_spec(all[k as int])),
            ));
            assert forall|x: int, t: int|
                after.dom().contains(x) && 0 <= t < after[x].len() implies (
            #[trigger] after[x][t]).len() == 20 by {
                if x == v as int {
                    if before.dom().contains(x) && t < before[x].len() {
                        assert(before[x][t].len() == 20);
                    }
                } else {
                    assert(after[x] === before[x]);
                }
            }
        }
        k += 1;
    }
    proof {
        assert(all.skip(all.len() as int) =~= Seq::<CiteView>::empty());
    }
    Ok(Some(v))
}

} // verus!
