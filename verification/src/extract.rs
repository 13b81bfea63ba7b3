//! The category extractor: walks a parsed document tree and registers, for
//! every category-membership construct found, a labeled edge from the
//! target category to the current document in the label graph.

use vstd::prelude::*;

use crate::chars::{
    char_is_alphanumeric, chars_of, is_alphanumeric_char, string_from_chars, trim_chars, trim_spec,
};
use crate::graph::{Graph, GraphView};
use crate::normalize::{normalize_spec, Normalizer};
use crate::text::{
    flatten_nodes_spec, DefinitionListItem, ListItem, TextExtractor, WikiNode,
};

verus! {

/// The extractor's failure: a title carrying a category-namespace prefix
/// normalized to a non-category. That breaks the consistency of the
/// upstream data, so the whole run is aborted.
#[derive(Debug, PartialEq, Eq, Structural)]
pub enum ExtractError {
    MalformedCategoryTarget,
}

/// One category membership found in a document: the raw target title and
/// the flattened anchor text.
pub struct Membership {
    pub target: Seq<char>,
    pub anchor: Seq<char>,
}

/// The memberships of one node, in the order the extractor finds them.
pub open spec fn memberships_node(n: WikiNode) -> Seq<Membership>
    decreases n,
{
    match n {
        WikiNode::Category { target, ordinal } => seq![
            Membership { target: target@, anchor: flatten_nodes_spec(ordinal@, true) },
        ],
        WikiNode::DefinitionList { items } => memberships_dl_items(items@),
        WikiNode::ExternalLink { nodes } => memberships_nodes(nodes@),
        WikiNode::Heading { nodes, .. } => memberships_nodes(nodes@),
        WikiNode::Link { text } => memberships_nodes(text@),
        WikiNode::OrderedList { items } => memberships_list_items(items@),
        WikiNode::Preformatted { nodes } => memberships_nodes(nodes@),
        WikiNode::Tag { nodes } => memberships_nodes(nodes@),
        WikiNode::UnorderedList { items } => memberships_list_items(items@),
        _ => Seq::empty(),
    }
}

/// The memberships of a node sequence.
pub open spec fn memberships_nodes(ns: Seq<WikiNode>) -> Seq<Membership>
    decreases ns,
{
    if ns.len() == 0 {
        Seq::empty()
    } else {
        memberships_nodes(ns.drop_last()) + memberships_node(ns.last())
    }
}

/// The memberships of a definition list's items.
pub open spec fn memberships_dl_items(items: Seq<DefinitionListItem>) -> Seq<Membership>
    decreases items,
{
    if items.len() == 0 {
        Seq::empty()
    } else {
        memberships_dl_items(items.drop_last()) + memberships_nodes(items.last().nodes@)
    }
}

/// The memberships of an ordered or unordered list's items.
pub open spec fn memberships_list_items(items: Seq<ListItem>) -> Seq<Membership>
    decreases items,
{
    if items.len() == 0 {
        Seq::empty()
    } else {
        memberships_list_items(items.drop_last()) + memberships_nodes(items.last().nodes@)
    }
}

/// The display label of a membership edge: the trimmed anchor text, or the
/// current document's own name when that text is empty or a single
/// non-alphanumeric character.
pub open spec fn label_of(anchor: Seq<char>, site: Seq<char>) -> Seq<char> {
    let t = trim_spec(anchor);
    if t.len() == 0 || (t.len() == 1 && !is_alphanumeric_char(t[0])) {
        site
    } else {
        t
    }
}

/// The graph after registering the memberships `ms` for the document
/// `(site, is_category)`, and whether all their targets normalized to
/// categories. A malformed target stops the fold where it stands.
pub open spec fn extract_fold(
    g: GraphView,
    ms: Seq<Membership>,
    site: Seq<char>,
    is_category: bool,
) -> (GraphView, bool)
    decreases ms.len(),
{
    if ms.len() == 0 {
        (g, true)
    } else {
        let t = normalize_spec(ms[0].target);
        if !t.1 {
            (g, false)
        } else {
            let g1 = Graph::add_spec(
                g,
                (t.0, t.1),
                label_of(ms[0].anchor, site),
                (site, is_category),
            );
            extract_fold(g1, ms.drop_first(), site, is_category)
        }
    }
}

/// Registering `a + b` is registering `a`, then `b` from where `a` ended;
/// a malformed target in `a` stops the whole fold there.
proof fn lemma_extract_fold_concat(
    g: GraphView,
    a: Seq<Membership>,
    b: Seq<Membership>,
    site: Seq<char>,
    is_category: bool,
)
    ensures
        extract_fold(g, a + b, site, is_category) === if extract_fold(g, a, site, is_category).1 {
            extract_fold(extract_fold(g, a, site, is_category).0, b, site, is_category)
        } else {
            (extract_fold(g, a, site, is_category).0, false)
        },
    decreases a.len(),
{
    if a.len() == 0 {
        assert(a + b =~= b);
    } else {
        assert((a + b).drop_first() =~= a.drop_first() + b);
        assert((a + b)[0] === a[0]);
        let t = normalize_spec(a[0].target);
        if t.1 {
            let g1 = Graph::add_spec(
                g,
                (t.0, t.1),
                label_of(a[0].anchor, site),
                (site, is_category),
            );
            lemma_extract_fold_concat(g1, a.drop_first(), b, site, is_category);
        }
    }
}

/// The memberships of a node sequence split at `j`.
proof fn lemma_memberships_nodes_split(ns: Seq<WikiNode>, j: int)
    requires
        0 <= j <= ns.len(),
    ensures
        memberships_nodes(ns) === memberships_nodes(ns.take(j)) + memberships_nodes(ns.skip(j)),
    decreases ns.len(),
{
    if j == ns.len() {
        assert(ns.take(j) =~= ns);
        assert(memberships_nodes(ns.skip(j)) =~= Seq::<Membership>::empty());
        assert(memberships_nodes(ns) + Seq::<Membership>::empty() =~= memberships_nodes(ns));
    } else {
        lemma_memberships_nodes_split(ns.drop_last(), j);
        assert(ns.drop_last().take(j) =~= ns.take(j));
        assert(ns.skip(j).drop_last() =~= ns.drop_last().skip(j));
        assert(ns.skip(j).last() === ns.last());
        assert(memberships_nodes(ns.take(j)) + (memberships_nodes(ns.drop_last().skip(j))
            + memberships_node(ns.last())) =~= (memberships_nodes(ns.take(j))
            + memberships_nodes(ns.drop_last().skip(j))) + memberships_node(ns.last()));
    }
}

/// The extractor: the current document's identity, the graph being built,
/// and the normalizer that classifies titles.
pub struct CategoryExtractor {
    pub site: String,
    pub is_category: bool,
    pub graph: Graph,
    pub normalizer: Normalizer,
}

impl CategoryExtractor {
    /// The current document's name.
    pub open spec fn spec_site(&self) -> Seq<char> {
        self.site@
    }

    /// Whether the current document is itself a category page.
    pub open spec fn spec_is_category(&self) -> bool {
        self.is_category
    }

    /// A fresh extractor over an empty graph.
    pub fn new() -> (r: CategoryExtractor)
        ensures
            r.spec_site() === Seq::<char>::empty(),
            r.spec_is_category() == false,
            r.graph@.wf(),
            r.graph@.nodes === Seq::<crate::graph::NodeView>::empty(),
            r.graph@.labels === crate::graph::no_labels(),
            r.graph@.edge_labels === crate::graph::no_edge_labels(),
    {
        CategoryExtractor {
            site: String::new(),
            is_category: false,
            graph: Graph::new(),
            normalizer: Normalizer {},
        }
    }

    /// Sets the current document's name.
    pub fn set_site(&mut self, site: String)
        ensures
            final(self).spec_site() === site@,
            final(self).spec_is_category() == old(self).spec_is_category(),
            final(self).graph === old(self).graph,
    {
        self.site = site;
    }

    /// Sets whether the current document is a category page.
    pub fn set_is_category(&mut self, is_category: bool)
        ensures
            final(self).spec_is_category() == is_category,
            final(self).spec_site() === old(self).spec_site(),
            final(self).graph === old(self).graph,
    {
        self.is_category = is_category;
    }

    /// Registers every membership of a whole parsed document.
    pub fn extract(&mut self, parsed: &Vec<WikiNode>) -> (r: Result<(), ExtractError>)
        requires
            old(self).graph@.wf(),
        ensures
            final(self).graph@.wf(),
            final(self).spec_site() === old(self).spec_site(),
            final(self).spec_is_category() == old(self).spec_is_category(),
            final(self).graph@ === extract_fold(
                old(self).graph@,
                memberships_nodes(parsed@),
                old(self).spec_site(),
                old(self).spec_is_category(),
            ).0,
            r is Ok <==> extract_fold(
                old(self).graph@,
                memberships_nodes(parsed@),
                old(self).spec_site(),
                old(self).spec_is_category(),
            ).1,
            r is Err ==> r->Err_0 === ExtractError::MalformedCategoryTarget,
    {
        self.extract_nodes(parsed)
    }

    /// Registers the memberships of one node and its subtree.
    pub fn extract_node(&mut self, node: &WikiNode) -> (r: Result<(), ExtractError>)
        requires
            old(self).graph@.wf(),
        ensures
            final(self).graph@.wf(),
            final(self).spec_site() === old(self).spec_site(),
            final(self).spec_is_category() == old(self).spec_is_category(),
            final(self).graph@ === extract_fold(
                old(self).graph@,
                memberships_node(*node),
                old(self).spec_site(),
                old(self).spec_is_category(),
            ).0,
            r is Ok <==> extract_fold(
                old(self).graph@,
                memberships_node(*node),
                old(self).spec_site(),
                old(self).spec_is_category(),
            ).1,
            r is Err ==> r->Err_0 === ExtractError::MalformedCategoryTarget,
        decreases *node,
    {
        let ghost pre = *self;
        match node {
            WikiNode::Category { target, ordinal } => {
                let normalized = self.normalizer.normalize_category_name(target.as_str());
                if !normalized.1 {
                    return Err(ExtractError::MalformedCategoryTarget);
                }
                let mut extr = TextExtractor::new();
                extr.extract_nodes_text(ordinal);
                let flat = extr.result();
                let fc = chars_of(flat.as_str());
                let trimmed = trim_chars(&fc);
                let fallback = if trimmed.len() == 0 {
                    true
                } else if trimmed.len() == 1 {
                    !char_is_alphanumeric(trimmed[0])
                } else {
                    false
                };
                let label = if fallback {
                    self.site.clone()
                } else {
                    string_from_chars(&trimmed)
                };
                let site = self.site.clone();
                let is_category = self.is_category;
                self.graph.add(normalized, label, (site, is_category));
                proof {
                    let ms = memberships_node(*node);
                    assert(Seq::<char>::empty() + flatten_nodes_spec(ordinal@, true)
                        =~= flatten_nodes_spec(ordinal@, true));
                    assert(flat@ === flatten_nodes_spec(ordinal@, true));
                    assert(ms[0] === (Membership {
                        target: target@,
                        anchor: flatten_nodes_spec(ordinal@, true),
                    }));
                    assert(label@ === label_of(ms[0].anchor, pre.spec_site()));
                    assert(ms.drop_first() =~= Seq::<Membership>::empty());
                    let t = normalize_spec(ms[0].target);
                    assert(t === (normalized.0@, normalized.1));
                    assert((t.0, t.1) === t);
                    let g1 = Graph::add_spec(
                        pre.graph@,
                        (t.0, t.1),
                        label_of(ms[0].anchor, pre.spec_site()),
                        (pre.spec_site(), pre.spec_is_category()),
                    );
                    assert(self.graph@ === g1);
                    assert(extract_fold(
                        g1,
                        ms.drop_first(),
                        pre.spec_site(),
                        pre.spec_is_category(),
                    ) === (g1, true));
                    assert(extract_fold(pre.graph@, ms, pre.spec_site(), pre.spec_is_category())
                        === (g1, true));
                }
                Ok(())
            },
            WikiNode::DefinitionList { items } => self.extract_dl_items(items),
            WikiNode::ExternalLink { nodes } => self.extract_nodes(nodes),
            WikiNode::Heading { nodes, .. } => self.extract_nodes(nodes),
            WikiNode::Link { text } => self.extract_nodes(text),
            WikiNode::OrderedList { items } => self.extract_list_items(items),
            WikiNode::Preformatted { nodes } => self.extract_nodes(nodes),
            WikiNode::Tag { nodes } => self.extract_nodes(nodes),
            WikiNode::UnorderedList { items } => self.extract_list_items(items),
            _ => Ok(()),
        }
    }

    /// Registers the memberships of a node sequence, stopping at the first
    /// malformed target.
    pub fn extract_nodes(&mut self, nodes: &Vec<WikiNode>) -> (r: Result<(), ExtractError>)
        requires
            old(self).graph@.wf(),
        ensures
            final(self).graph@.wf(),
            final(self).spec_site() === old(self).spec_site(),
            final(self).spec_is_category() == old(self).spec_is_category(),
            final(self).graph@ === extract_fold(
                old(self).graph@,
                memberships_nodes(nodes@),
                old(self).spec_site(),
                old(self).spec_is_category(),
            ).0,
            r is Ok <==> extract_fold(
                old(self).graph@,
                memberships_nodes(nodes@),
                old(self).spec_site(),
                old(self).spec_is_category(),
            ).1,
            r is Err ==> r->Err_0 === ExtractError::MalformedCategoryTarget,
        decreases nodes@,
    {
        let ghost g0 = self.graph@;
        let ghost site = self.spec_site();
        let ghost isc = self.spec_is_category();
        let mut j: usize = 0;
        while j < nodes.len()
            invariant
                self.graph@.wf(),
                g0.wf(),
                g0 === old(self).graph@,
                site === old(self).spec_site(),
                isc == old(self).spec_is_category(),
                self.spec_site() === site,
                self.spec_is_category() == isc,
                0 <= j <= nodes@.len(),
                extract_fold(g0, memberships_nodes(nodes@.take(j as int)), site, isc).1,
                self.graph@ === extract_fold(
                    g0,
                    memberships_nodes(nodes@.take(j as int)),
                    site,
                    isc,
                ).0,
                self.normalizer === (Normalizer {  }),
            decreases nodes@.len() - j,
        {
            let ghost done = memberships_nodes(nodes@.take(j as int));
            let ghost gj = self.graph@;
            proof {
                assert(decreases_to!(nodes@ => nodes@[j as int]));
                assert(nodes@.take(j + 1).drop_last() =~= nodes@.take(j as int));
            }
            let r = self.extract_node(&nodes[j]);
            proof {
                lemma_extract_fold_concat(g0, done, memberships_node(nodes@[j as int]), site, isc);
                assert(memberships_nodes(nodes@.take(j + 1)) === done + memberships_node(
                    nodes@[j as int],
                ));
            }
            if let Err(e) = r {
                proof {
                    lemma_memberships_nodes_split(nodes@, j + 1);
                    lemma_extract_fold_concat(
                        g0,
                        memberships_nodes(nodes@.take(j + 1)),
                        memberships_nodes(nodes@.skip(j + 1)),
                        site,
                        isc,
                    );
                }
                return Err(e);
            }
            j += 1;
        }
        proof {
            assert(nodes@.take(nodes@.len() as int) =~= nodes@);
        }
        Ok(())
    }

    /// Registers the memberships of every definition list item.
    pub fn extract_definition_item(&mut self, item: &DefinitionListItem) -> (r: Result<
        (),
        ExtractError,
    >)
        requires
            old(self).graph@.wf(),
        ensures
            final(self).graph@.wf(),
            final(self).spec_site() === old(self).spec_site(),
            final(self).spec_is_category() == old(self).spec_is_category(),
            final(self).graph@ === extract_fold(
                old(self).graph@,
                memberships_nodes(item.nodes@),
                old(self).spec_site(),
                old(self).spec_is_category(),
            ).0,
            r is Ok <==> extract_fold(
                old(self).graph@,
                memberships_nodes(item.nodes@),
                old(self).spec_site(),
                old(self).spec_is_category(),
            ).1,
            r is Err ==> r->Err_0 === ExtractError::MalformedCategoryTarget,
        decreases *item,
    {
        self.extract_nodes(&item.nodes)
    }

    /// Registers the memberships of an ordered or unordered list item.
    pub fn extract_list_item(&mut self, item: &ListItem) -> (r: Result<(), ExtractError>)
        requires
            old(self).graph@.wf(),
        ensures
            final(self).graph@.wf(),
            final(self).spec_site() === old(self).spec_site(),
            final(self).spec_is_category() == old(self).spec_is_category(),
            final(self).graph@ === extract_fold(
                old(self).graph@,
                memberships_nodes(item.nodes@),
                old(self).spec_site(),
                old(self).spec_is_category(),
            ).0,
            r is Ok <==> extract_fold(
                old(self).graph@,
                memberships_nodes(item.nodes@),
                old(self).spec_site(),
                old(self).spec_is_category(),
            ).1,
            r is Err ==> r->Err_0 === ExtractError::MalformedCategoryTarget,
        decreases *item,
    {
        self.extract_nodes(&item.nodes)
    }
}

/// The memberships of a definition list's items split at `j`.
proof fn lemma_memberships_dl_split(items: Seq<DefinitionListItem>, j: int)
    requires
        0 <= j <= items.len(),
    ensures
        memberships_dl_items(items) === memberships_dl_items(items.take(j))
            + memberships_dl_items(items.skip(j)),
    decreases items.len(),
{
    if j == items.len() {
        assert(items.take(j) =~= items);
        assert(memberships_dl_items(items.skip(j)) =~= Seq::<Membership>::empty());
        assert(memberships_dl_items(items) + Seq::<Membership>::empty() =~= memberships_dl_items(
            items,
        ));
    } else {
        lemma_memberships_dl_split(items.drop_last(), j);
        assert(items.drop_last().take(j) =~= items.take(j));
        assert(items.skip(j).drop_last() =~= items.drop_last().skip(j));
        assert(items.skip(j).last() === items.last());
        assert(memberships_dl_items(items.take(j)) + (memberships_dl_items(
            items.drop_last().skip(j),
        ) + memberships_nodes(items.last().nodes@)) =~= (memberships_dl_items(items.take(j))
            + memberships_dl_items(items.drop_last().skip(j))) + memberships_nodes(
            items.last().nodes@,
        ));
    }
}

/// The memberships of a plain list's items split at `j`.
proof fn lemma_memberships_list_split(items: Seq<ListItem>, j: int)
    requires
        0 <= j <= items.len(),
    ensures
        memberships_list_items(items) === memberships_list_items(items.take(j))
            + memberships_list_items(items.skip(j)),
    decreases items.len(),
{
    if j == items.len() {
        assert(items.take(j) =~= items);
        assert(memberships_list_items(items.skip(j)) =~= Seq::<Membership>::empty());
        assert(memberships_list_items(items) + Seq::<Membership>::empty()
            =~= memberships_list_items(items));
    } else {
        lemma_memberships_list_split(items.drop_last(), j);
        assert(items.drop_last().take(j) =~= items.take(j));
        assert(items.skip(j).drop_last() =~= items.drop_last().skip(j));
        assert(items.skip(j).last() === items.last());
        assert(memberships_list_items(items.take(j)) + (memberships_list_items(
            items.drop_last().skip(j),
        ) + memberships_nodes(items.last().nodes@)) =~= (memberships_list_items(items.take(j))
            + memberships_list_items(items.drop_last().skip(j))) + memberships_nodes(
            items.last().nodes@,
        ));
    }
}

impl CategoryExtractor {
    /// Registers the memberships of every definition list item, stopping at
    /// the first malformed target.
    fn extract_dl_items(&mut self, items: &Vec<DefinitionListItem>) -> (r: Result<
        (),
        ExtractError,
    >)
        requires
            old(self).graph@.wf(),
        ensures
            final(self).graph@.wf(),
            final(self).spec_site() === old(self).spec_site(),
            final(self).spec_is_category() == old(self).spec_is_category(),
            final(self).graph@ === extract_fold(
                old(self).graph@,
                memberships_dl_items(items@),
                old(self).spec_site(),
                old(self).spec_is_category(),
            ).0,
            r is Ok <==> extract_fold(
                old(self).graph@,
                memberships_dl_items(items@),
                old(self).spec_site(),
                old(self).spec_is_category(),
            ).1,
            r is Err ==> r->Err_0 === ExtractError::MalformedCategoryTarget,
        decreases items@,
    {
        let ghost g0 = self.graph@;
        let ghost site = self.spec_site();
        let ghost isc = self.spec_is_category();
        let mut j: usize = 0;
        while j < items.len()
            invariant
                self.graph@.wf(),
                g0.wf(),
                g0 === old(self).graph@,
                site === old(self).spec_site(),
                isc == old(self).spec_is_category(),
                self.spec_site() === site,
                self.spec_is_category() == isc,
                0 <= j <= items@.len(),
                extract_fold(g0, memberships_dl_items(items@.take(j as int)), site, isc).1,
                self.graph@ === extract_fold(
                    g0,
                    memberships_dl_items(items@.take(j as int)),
                    site,
                    isc,
                ).0,
                self.normalizer === (Normalizer {  }),
            decreases items@.len() - j,
        {
            let ghost done = memberships_dl_items(items@.take(j as int));
            proof {
                assert(decreases_to!(items@ => items@[j as int]));
                assert(items@.take(j + 1).drop_last() =~= items@.take(j as int));
            }
            let r = self.extract_definition_item(&items[j]);
            proof {
                lemma_extract_fold_concat(
                    g0,
                    done,
                    memberships_nodes(items@[j as int].nodes@),
                    site,
                    isc,
                );
                assert(memberships_dl_items(items@.take(j + 1)) === done + memberships_nodes(
                    items@[j as int].nodes@,
                ));
            }
            if let Err(e) = r {
                proof {
                    lemma_memberships_dl_split(items@, j + 1);
                    lemma_extract_fold_concat(
                        g0,
                        memberships_dl_items(items@.take(j + 1)),
                        memberships_dl_items(items@.skip(j + 1)),
                        site,
                        isc,
                    );
                }
                return Err(e);
            }
            j += 1;
        }
        proof {
            assert(items@.take(items@.len() as int) =~= items@);
        }
        Ok(())
    }

    /// Registers the memberships of every list item, stopping at the first
    /// malformed target.
    fn extract_list_items(&mut self, items: &Vec<ListItem>) -> (r: Result<(), ExtractError>)
        requires
            old(self).graph@.wf(),
        ensures
            final(self).graph@.wf(),
            final(self).spec_site() === old(self).spec_site(),
            final(self).spec_is_category() == old(self).spec_is_category(),
            final(self).graph@ === extract_fold(
                old(self).graph@,
                memberships_list_items(items@),
                old(self).spec_site(),
                old(self).spec_is_category(),
            ).0,
            r is Ok <==> extract_fold(
                old(self).graph@,
                memberships_list_items(items@),
                old(self).spec_site(),
                old(self).spec_is_category(),
            ).1,
            r is Err ==> r->Err_0 === ExtractError::MalformedCategoryTarget,
        decreases items@,
    {
        let ghost g0 = self.graph@;
        let ghost site = self.spec_site();
        let ghost isc = self.spec_is_category();
        let mut j: usize = 0;
        while j < items.len()
            invariant
                self.graph@.wf(),
                g0.wf(),
                g0 === old(self).graph@,
                site === old(self).spec_site(),
                isc == old(self).spec_is_category(),
                self.spec_site() === site,
                self.spec_is_category() == isc,
                0 <= j <= items@.len(),
                extract_fold(g0, memberships_list_items(items@.take(j as int)), site, isc).1,
                self.graph@ === extract_fold(
                    g0,
                    memberships_list_items(items@.take(j as int)),
                    site,
                    isc,
                ).0,
                self.normalizer === (Normalizer {  }),
            decreases items@.len() - j,
        {
            let ghost done = memberships_list_items(items@.take(j as int));
            proof {
                assert(decreases_to!(items@ => items@[j as int]));
                assert(items@.take(j + 1).drop_last() =~= items@.take(j as int));
            }
            let r = self.extract_list_item(&items[j]);
            proof {
                lemma_extract_fold_concat(
                    g0,
                    done,
                    memberships_nodes(items@[j as int].nodes@),
                    site,
                    isc,
                );
                assert(memberships_list_items(items@.take(j + 1)) === done + memberships_nodes(
                    items@[j as int].nodes@,
                ));
            }
            if let Err(e) = r {
                proof {
                    lemma_memberships_list_split(items@, j + 1);
                    lemma_extract_fold_concat(
                        g0,
                        memberships_list_items(items@.take(j + 1)),
                        memberships_list_items(items@.skip(j + 1)),
                        site,
                        isc,
                    );
                }
                return Err(e);
            }
            j += 1;
        }
        proof {
            assert(items@.take(items@.len() as int) =~= items@);
        }
        Ok(())
    }
}

} // verus!
