use wikiquote::extract::{CategoryExtractor, ExtractError};
use wikiquote::text::{ListItem, WikiNode};

fn text(s: &str) -> WikiNode {
    WikiNode::Text { value: s.to_string() }
}

fn category(target: &str, ordinal: Vec<WikiNode>) -> WikiNode {
    WikiNode::Category { target: target.to_string(), ordinal }
}

#[test]
fn membership_adds_edge_from_category_to_document() {
    let mut extr = CategoryExtractor::new();
    extr.set_site("Doc".to_string());
    extr.set_is_category(false);
    let r = extr.extract(&vec![category("Kategoria:CatX", vec![text("shown")])]);
    assert!(r.is_ok());
    let cat = extr.graph.find_vertex(&("CatX".to_string(), true)).unwrap();
    let doc = extr.graph.find_vertex(&("Doc".to_string(), false)).unwrap();
    assert_eq!(extr.graph.get_edge_label(&(cat, doc)), "shown");
}

#[test]
fn p9_empty_label_falls_back_to_document_name() {
    let mut extr = CategoryExtractor::new();
    extr.set_site("Doc".to_string());
    extr.set_is_category(false);
    let r = extr.extract(&vec![category("Kategoria:CatX", vec![text("   ")])]);
    assert!(r.is_ok());
    let cat = extr.graph.find_vertex(&("CatX".to_string(), true)).unwrap();
    let doc = extr.graph.find_vertex(&("Doc".to_string(), false)).unwrap();
    assert_eq!(extr.graph.get_edge_label(&(cat, doc)), "Doc");
}

#[test]
fn p9_single_punctuation_label_falls_back() {
    let mut extr = CategoryExtractor::new();
    extr.set_site("Doc".to_string());
    extr.set_is_category(false);
    let r = extr.extract(&vec![category("Kategoria:CatX", vec![text(" ! ")])]);
    assert!(r.is_ok());
    let cat = extr.graph.find_vertex(&("CatX".to_string(), true)).unwrap();
    let doc = extr.graph.find_vertex(&("Doc".to_string(), false)).unwrap();
    assert_eq!(extr.graph.get_edge_label(&(cat, doc)), "Doc");
}

#[test]
fn single_alphanumeric_label_is_kept() {
    let mut extr = CategoryExtractor::new();
    extr.set_site("Doc".to_string());
    extr.set_is_category(false);
    let r = extr.extract(&vec![category("Kategoria:CatX", vec![text("7")])]);
    assert!(r.is_ok());
    let cat = extr.graph.find_vertex(&("CatX".to_string(), true)).unwrap();
    let doc = extr.graph.find_vertex(&("Doc".to_string(), false)).unwrap();
    assert_eq!(extr.graph.get_edge_label(&(cat, doc)), "7");
}

#[test]
fn malformed_category_target_aborts() {
    let mut extr = CategoryExtractor::new();
    extr.set_site("Doc".to_string());
    let r = extr.extract(&vec![category("NotACategory", vec![])]);
    assert_eq!(r, Err(ExtractError::MalformedCategoryTarget));
    // nothing was added for the malformed membership
    assert_eq!(extr.graph.len(), 0);
}

#[test]
fn memberships_are_found_inside_nested_constructs() {
    let mut extr = CategoryExtractor::new();
    extr.set_site("Doc".to_string());
    extr.set_is_category(true);
    let tree = vec![WikiNode::UnorderedList {
        items: vec![ListItem {
            nodes: vec![WikiNode::Link {
                text: vec![category("Kategoria:Deep", vec![text("lbl")])],
            }],
        }],
    }];
    assert!(extr.extract(&tree).is_ok());
    let cat = extr.graph.find_vertex(&("Deep".to_string(), true)).unwrap();
    let doc = extr.graph.find_vertex(&("Doc".to_string(), true)).unwrap();
    assert_eq!(extr.graph.get_edge_label(&(cat, doc)), "lbl");
}

#[test]
fn repeated_membership_is_deduplicated_on_nodes() {
    let mut extr = CategoryExtractor::new();
    extr.set_site("Doc".to_string());
    extr.set_is_category(false);
    let tree = vec![
        category("Kategoria:CatX", vec![text("one")]),
        category("Kategoria:CatX", vec![text("two")]),
    ];
    assert!(extr.extract(&tree).is_ok());
    assert_eq!(extr.graph.len(), 2);
    let cat = extr.graph.find_vertex(&("CatX".to_string(), true)).unwrap();
    let doc = extr.graph.find_vertex(&("Doc".to_string(), false)).unwrap();
    assert_eq!(extr.graph.get_edge_label(&(cat, doc)), "two");
}
