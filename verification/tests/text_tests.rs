use wikiquote::text::{DefinitionListItem, ListItem, TextExtractor, WikiNode};

fn text(s: &str) -> WikiNode {
    WikiNode::Text { value: s.to_string() }
}

#[test]
fn plain_text_runs_concatenate() {
    let mut extr = TextExtractor::new();
    extr.extract_node_text(&text("one "));
    extr.extract_node_text(&text("two"));
    assert_eq!(extr.result(), "one two");
}

#[test]
fn character_entity_becomes_its_character() {
    let mut extr = TextExtractor::new();
    extr.extract_node_text(&WikiNode::CharacterEntity { character: 'é' });
    assert_eq!(extr.result(), "é");
}

#[test]
fn link_text_is_flattened_without_brackets() {
    let mut extr = TextExtractor::new();
    extr.extract_node_text(&WikiNode::Link { text: vec![text("anchor")] });
    assert_eq!(extr.result(), "anchor");
}

#[test]
fn image_text_is_bracketed() {
    let mut extr = TextExtractor::new();
    extr.extract_node_text(&WikiNode::Image { text: vec![text("pic")] });
    assert_eq!(extr.result(), "[pic]");
}

#[test]
fn br_tag_becomes_newline_other_tags_nothing() {
    let mut extr = TextExtractor::new();
    extr.extract_node_text(&WikiNode::StartTag { name: "br".to_string() });
    extr.extract_node_text(&WikiNode::StartTag { name: "div".to_string() });
    assert_eq!(extr.result(), "\n");
}

#[test]
fn lists_descend_by_default() {
    let mut extr = TextExtractor::new();
    extr.extract_node_text(&WikiNode::UnorderedList {
        items: vec![ListItem { nodes: vec![text("inner")] }],
    });
    assert_eq!(extr.result(), "inner");
}

#[test]
fn lists_are_skipped_when_descent_is_off() {
    let mut extr = TextExtractor::new();
    extr.descend_lists = false;
    extr.extract_node_text(&text("outer "));
    extr.extract_node_text(&WikiNode::UnorderedList {
        items: vec![ListItem { nodes: vec![text("inner")] }],
    });
    assert_eq!(extr.result(), "outer ");
}

#[test]
fn definition_lists_and_headings_are_flattened() {
    let mut extr = TextExtractor::new();
    extr.extract_node_text(&WikiNode::DefinitionList {
        items: vec![DefinitionListItem { nodes: vec![text("def")] }],
    });
    extr.extract_node_text(&WikiNode::Heading { level: 2, nodes: vec![text("head")] });
    assert_eq!(extr.result(), "defhead");
}

#[test]
fn tables_and_unknown_nodes_yield_nothing() {
    let mut extr = TextExtractor::new();
    extr.extract_node_text(&WikiNode::Other);
    assert_eq!(extr.result(), "");
}
