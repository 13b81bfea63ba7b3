//! The document node tree and the text flattener.
//!
//! The tree holds, as plain values, what the extraction logic reads of a
//! parsed wiki document; the caller converts the markup parser's output
//! into it. The flattener concatenates the text runs of a subtree
//! depth-first, optionally descending into nested lists, and is used both
//! for edge labels and for citation bodies.

use vstd::prelude::*;

verus! {

/// One node of a parsed document. Constructs the extraction logic does not
/// read (tables, templates, comments, formatting toggles) appear as
/// `Other`: ignoring them is by design, not a defect.
pub enum WikiNode {
    /// A category-membership construct: the target title and the anchor
    /// ("ordinal") subtree.
    Category { target: String, ordinal: Vec<WikiNode> },
    /// A character entity, already resolved to its character.
    CharacterEntity { character: char },
    DefinitionList { items: Vec<DefinitionListItem> },
    ExternalLink { nodes: Vec<WikiNode> },
    Heading { level: u8, nodes: Vec<WikiNode> },
    Image { text: Vec<WikiNode> },
    Link { text: Vec<WikiNode> },
    OrderedList { items: Vec<ListItem> },
    Preformatted { nodes: Vec<WikiNode> },
    StartTag { name: String },
    Tag { nodes: Vec<WikiNode> },
    Text { value: String },
    UnorderedList { items: Vec<ListItem> },
    Other,
}

/// List item of a definition list.
pub struct DefinitionListItem {
    pub nodes: Vec<WikiNode>,
}

/// List item of an ordered or unordered list.
pub struct ListItem {
    pub nodes: Vec<WikiNode>,
}

/// The flattened text of one node.
pub open spec fn flatten_node_spec(n: WikiNode, descend: bool) -> Seq<char>
    decreases n,
{
    match n {
        WikiNode::Category { .. } => Seq::empty(),
        WikiNode::CharacterEntity { character } => seq![character],
        WikiNode::DefinitionList { items } => flatten_dl_items_spec(items@, descend),
        WikiNode::ExternalLink { nodes } => flatten_nodes_spec(nodes@, descend),
        WikiNode::Heading { nodes, .. } => flatten_nodes_spec(nodes@, descend),
        WikiNode::Image { text } => seq!['['] + flatten_nodes_spec(text@, descend) + seq![']'],
        WikiNode::Link { text } => flatten_nodes_spec(text@, descend),
        WikiNode::OrderedList { items } => if descend {
            flatten_list_items_spec(items@, descend)
        } else {
            Seq::empty()
        },
        WikiNode::Preformatted { nodes } => flatten_nodes_spec(nodes@, descend),
        WikiNode::StartTag { name } => if name@ === "br"@ {
            seq!['\n']
        } else {
            Seq::empty()
        },
        WikiNode::Tag { nodes } => flatten_nodes_spec(nodes@, descend),
        WikiNode::Text { value } => value@,
        WikiNode::UnorderedList { items } => if descend {
            flatten_list_items_spec(items@, descend)
        } else {
            Seq::empty()
        },
        WikiNode::Other => Seq::empty(),
    }
}

/// The flattened text of a node sequence.
pub open spec fn flatten_nodes_spec(ns: Seq<WikiNode>, descend: bool) -> Seq<char>
    decreases ns,
{
    if ns.len() == 0 {
        Seq::empty()
    } else {
        flatten_nodes_spec(ns.drop_last(), descend) + flatten_node_spec(ns.last(), descend)
    }
}

/// The flattened text of a definition list's items.
pub open spec fn flatten_dl_items_spec(items: Seq<DefinitionListItem>, descend: bool) -> Seq<char>
    decreases items,
{
    if items.len() == 0 {
        Seq::empty()
    } else {
        flatten_dl_items_spec(items.drop_last(), descend) + flatten_nodes_spec(
            items.last().nodes@,
            descend,
        )
    }
}

/// The flattened text of an ordered or unordered list's items.
pub open spec fn flatten_list_items_spec(items: Seq<ListItem>, descend: bool) -> Seq<char>
    decreases items,
{
    if items.len() == 0 {
        Seq::empty()
    } else {
        flatten_list_items_spec(items.drop_last(), descend) + flatten_nodes_spec(
            items.last().nodes@,
            descend,
        )
    }
}

/// The concatenation of a list of text runs.
pub open spec fn concat_views(ss: Seq<Seq<char>>) -> Seq<char>
    decreases ss,
{
    if ss.len() == 0 {
        Seq::empty()
    } else {
        concat_views(ss.drop_last()) + ss.last()
    }
}

/// Collects the text runs of a document subtree.
pub struct TextExtractor {
    pub text: Vec<String>,
    pub descend_lists: bool,
}

impl TextExtractor {
    /// The text collected so far, as one character sequence.
    pub open spec fn rendered(self) -> Seq<char> {
        concat_views(Seq::new(self.text@.len(), |i: int| self.text@[i]@))
    }

    /// A fresh extractor that descends into nested lists.
    pub fn new() -> (r: TextExtractor)
        ensures
            r.rendered() === Seq::<char>::empty(),
            r.descend_lists == true,
    {
        let r = TextExtractor { text: Vec::new(), descend_lists: true };
        proof {
            assert(Seq::new(r.text@.len(), |i: int| r.text@[i]@) =~= Seq::<Seq<char>>::empty());
        }
        r
    }

    /// The collected text, joined to one string.
    pub fn result(&self) -> (r: String)
        ensures
            r@ === self.rendered(),
    {
        let mut r = String::new();
        let mut i: usize = 0;
        while i < self.text.len()
            invariant
                0 <= i <= self.text@.len(),
                r@ === concat_views(Seq::new(i as nat, |j: int| self.text@[j]@)),
            decreases self.text@.len() - i,
        {
            proof {
                assert(Seq::new((i + 1) as nat, |j: int| self.text@[j]@).drop_last() =~= Seq::new(
                    i as nat,
                    |j: int| self.text@[j]@,
                ));
            }
            r.append(self.text[i].as_str());
            i += 1;
        }
        proof {
            assert(Seq::new(self.text@.len(), |j: int| self.text@[j]@) =~= Seq::new(
                self.text@.len() as nat,
                |j: int| self.text@[j]@,
            ));
        }
        r
    }

    /// Appends one text run; the rendered text grows by exactly that run.
    fn push_run(&mut self, s: String)
        ensures
            final(self).rendered() === old(self).rendered() + s@,
            final(self).descend_lists == old(self).descend_lists,
    {
        let ghost pre = self.text@;
        self.text.push(s);
        proof {
            assert(Seq::new(self.text@.len(), |i: int| self.text@[i]@).drop_last() =~= Seq::new(
                pre.len(),
                |i: int| pre[i]@,
            ));
            assert(Seq::new(self.text@.len(), |i: int| self.text@[i]@).last() === s@);
        }
    }

    /// Flattens one node into the collected text.
    pub fn extract_node_text(&mut self, node: &WikiNode)
        ensures
            final(self).rendered() === old(self).rendered() + flatten_node_spec(
                *node,
                old(self).descend_lists,
            ),
            final(self).descend_lists == old(self).descend_lists,
        decreases *node,
    {
        let ghost pre = *self;
        match node {
            WikiNode::Heading { nodes, .. } => self.extract_nodes_text(nodes),
            WikiNode::CharacterEntity { character } => {
                let mut s = String::new();
                crate::chars::push_char(&mut s, *character);
                proof {
                    assert(s@ =~= seq![*character]);
                }
                self.push_run(s);
            },
            WikiNode::DefinitionList { items } => self.extract_dl_items_text(items),
            WikiNode::Link { text } => self.extract_nodes_text(text),
            WikiNode::ExternalLink { nodes } => self.extract_nodes_text(nodes),
            WikiNode::Image { text } => {
                let mut s = String::new();
                crate::chars::push_char(&mut s, '[');
                proof {
                    assert(s@ =~= seq!['[']);
                }
                self.push_run(s);
                self.extract_nodes_text(text);
                let mut s2 = String::new();
                crate::chars::push_char(&mut s2, ']');
                proof {
                    assert(s2@ =~= seq![']']);
                }
                self.push_run(s2);
            },
            WikiNode::UnorderedList { items } => {
                if self.descend_lists {
                    self.extract_items_text(items);
                }
            },
            WikiNode::OrderedList { items } => {
                if self.descend_lists {
                    self.extract_items_text(items);
                }
            },
            WikiNode::Preformatted { nodes } => self.extract_nodes_text(nodes),
            WikiNode::Tag { nodes } => self.extract_nodes_text(nodes),
            WikiNode::StartTag { name } => {
                let br = String::from_str("br");
                if name.eq(&br) {
                    let mut s = String::new();
                    crate::chars::push_char(&mut s, '\n');
                    proof {
                        assert(s@ =~= seq!['\n']);
                    }
                    self.push_run(s);
                }
            },
            WikiNode::Text { value } => {
                let ghost v = value@;
                let mut s = String::new();
                s.append(value.as_str());
                proof {
                    assert(s@ =~= v);
                }
                self.push_run(s);
            },
            _ => {},
        }
        proof {
            assert(self.rendered() =~= pre.rendered() + flatten_node_spec(
                *node,
                pre.descend_lists,
            ));
        }
    }

    /// Flattens a node sequence into the collected text.
    pub fn extract_nodes_text(&mut self, nodes: &Vec<WikiNode>)
        ensures
            final(self).rendered() === old(self).rendered() + flatten_nodes_spec(
                nodes@,
                old(self).descend_lists,
            ),
            final(self).descend_lists == old(self).descend_lists,
        decreases nodes@,
    {
        let ghost pre = *self;
        let mut j: usize = 0;
        while j < nodes.len()
            invariant
                0 <= j <= nodes@.len(),
                self.rendered() === pre.rendered() + flatten_nodes_spec(
                    nodes@.take(j as int),
                    pre.descend_lists,
                ),
                self.descend_lists == pre.descend_lists,
            decreases nodes@.len() - j,
        {
            proof {
                assert(nodes@.take(j + 1).drop_last() =~= nodes@.take(j as int));
                assert(decreases_to!(nodes@ => nodes@[j as int]));
            }
            self.extract_node_text(&nodes[j]);
            j += 1;
        }
        proof {
            assert(nodes@.take(nodes@.len() as int) =~= nodes@);
        }
    }

    /// Flattens a definition list item into the collected text.
    pub fn extract_dl_text(&mut self, node: &DefinitionListItem)
        ensures
            final(self).rendered() === old(self).rendered() + flatten_nodes_spec(
                node.nodes@,
                old(self).descend_lists,
            ),
            final(self).descend_lists == old(self).descend_lists,
        decreases *node,
    {
        self.extract_nodes_text(&node.nodes);
    }

    /// Flattens an ordered or unordered list item into the collected text.
    pub fn extract_item_text(&mut self, node: &ListItem)
        ensures
            final(self).rendered() === old(self).rendered() + flatten_nodes_spec(
                node.nodes@,
                old(self).descend_lists,
            ),
            final(self).descend_lists == old(self).descend_lists,
        decreases *node,
    {
        self.extract_nodes_text(&node.nodes);
    }

    /// Flattens every item of a definition list into the collected text.
    fn extract_dl_items_text(&mut self, items: &Vec<DefinitionListItem>)
        ensures
            final(self).rendered() === old(self).rendered() + flatten_dl_items_spec(
                items@,
                old(self).descend_lists,
            ),
            final(self).descend_lists == old(self).descend_lists,
        decreases items@,
    {
        let ghost pre = *self;
        let mut j: usize = 0;
        while j < items.len()
            invariant
                0 <= j <= items@.len(),
                self.rendered() === pre.rendered() + flatten_dl_items_spec(
                    items@.take(j as int),
                    pre.descend_lists,
                ),
                self.descend_lists == pre.descend_lists,
            decreases items@.len() - j,
        {
            proof {
                assert(items@.take(j + 1).drop_last() =~= items@.take(j as int));
                assert(decreases_to!(items@ => items@[j as int]));
            }
            self.extract_dl_text(&items[j]);
            j += 1;
        }
        proof {
            assert(items@.take(items@.len() as int) =~= items@);
        }
    }

    /// Flattens every item of a list into the collected text.
    fn extract_items_text(&mut self, items: &Vec<ListItem>)
        ensures
            final(self).rendered() === old(self).rendered() + flatten_list_items_spec(
                items@,
                old(self).descend_lists,
            ),
            final(self).descend_lists == old(self).descend_lists,
        decreases items@,
    {
        let ghost pre = *self;
        let mut j: usize = 0;
        while j < items.len()
            invariant
                0 <= j <= items@.len(),
                self.rendered() === pre.rendered() + flatten_list_items_spec(
                    items@.take(j as int),
                    pre.descend_lists,
                ),
                self.descend_lists == pre.descend_lists,
            decreases items@.len() - j,
        {
            proof {
                assert(items@.take(j + 1).drop_last() =~= items@.take(j as int));
                assert(decreases_to!(items@ => items@[j as int]));
            }
            self.extract_item_text(&items[j]);
            j += 1;
        }
        proof {
            assert(items@.take(items@.len() as int) =~= items@);
        }
    }
}

} // verus!
