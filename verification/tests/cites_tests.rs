use wikiquote::cites::{Breadcrumbs, Cite, Cites, MetaData, MetaReader};
use wikiquote::text::{ListItem, WikiNode};

fn text(s: &str) -> WikiNode {
    WikiNode::Text { value: s.to_string() }
}

fn bullet_list(items: Vec<Vec<WikiNode>>) -> WikiNode {
    WikiNode::UnorderedList {
        items: items.into_iter().map(|nodes| ListItem { nodes }).collect(),
    }
}

#[test]
fn breadcrumbs_pad_and_truncate() {
    let mut bc = Breadcrumbs::new("T");
    bc.update(3, "X".to_string());
    let v: Vec<&str> = bc.stack.iter().map(|s| s.as_str()).collect();
    assert_eq!(v, vec!["T", "", "X"]);
    bc.update(1, "Y".to_string());
    let v: Vec<&str> = bc.stack.iter().map(|s| s.as_str()).collect();
    assert_eq!(v, vec!["Y"]);
    bc.update(2, "Z".to_string());
    let v: Vec<&str> = bc.stack.iter().map(|s| s.as_str()).collect();
    assert_eq!(v, vec!["Y", "Z"]);
}

#[test]
fn meta_reader_splits_at_first_colon_and_trims_value() {
    let mut reader = MetaReader { meta: Vec::new() };
    let items = vec![bullet_list(vec![
        vec![text("key:  value : extra ")],
        vec![text("no colon here")],
    ])];
    reader.read(&items);
    assert_eq!(reader.meta.len(), 1);
    assert_eq!(reader.meta[0].key, "key");
    assert_eq!(reader.meta[0].value, "value : extra");
    assert_eq!(reader.meta[0].links, Vec::<String>::new());
}

#[test]
fn extract_cites_collects_bodies_sections_and_meta() {
    let mut cites = Cites::default();
    let parsed = vec![
        WikiNode::Heading { level: 2, nodes: vec![text("Sec")] },
        bullet_list(vec![vec![
            text("quote body"),
            bullet_list(vec![vec![text("author: Someone")]]),
        ]]),
    ];
    cites.extract_cites(&parsed, "T");
    assert_eq!(cites.cites.len(), 1);
    let cite = &cites.cites[0];
    // the nested metadata list is not part of the body text
    assert_eq!(cite.text, "quote body");
    let sections: Vec<&str> = cite.sections.iter().map(|s| s.as_str()).collect();
    assert_eq!(sections, vec!["T", "Sec"]);
    assert_eq!(cite.meta.len(), 1);
    assert_eq!(cite.meta[0].key, "author");
    assert_eq!(cite.meta[0].value, "Someone");
}

#[test]
fn extract_cites_tracks_heading_changes() {
    let mut cites = Cites::default();
    let parsed = vec![
        bullet_list(vec![vec![text("before any heading")]]),
        WikiNode::Heading { level: 2, nodes: vec![text("One")] },
        bullet_list(vec![vec![text("under one")]]),
        WikiNode::Heading { level: 2, nodes: vec![text("Two")] },
        bullet_list(vec![vec![text("under two")]]),
    ];
    cites.extract_cites(&parsed, "Title");
    assert_eq!(cites.cites.len(), 3);
    let secs: Vec<Vec<&str>> = cites
        .cites
        .iter()
        .map(|c| c.sections.iter().map(|s| s.as_str()).collect())
        .collect();
    assert_eq!(secs[0], vec!["Title"]);
    assert_eq!(secs[1], vec!["Title", "One"]);
    assert_eq!(secs[2], vec!["Title", "Two"]);
}

#[test]
fn render_with_sections_and_meta() {
    let mut cite = Cite::new("body".to_string());
    cite.sections = vec!["A".to_string(), "B".to_string()];
    cite.meta = vec![MetaData::new(
        "k".to_string(),
        "v".to_string(),
        Vec::new(),
    )];
    assert_eq!(cite.render(), "[A / B]\nbody\n * k: v\n");
}

#[test]
fn render_without_sections_or_meta() {
    let cite = Cite::new("just text".to_string());
    assert_eq!(cite.render(), "just text\n");
}
