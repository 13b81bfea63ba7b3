use git2::{BranchType, Oid, Repository};
use wikiquote::compile::{
    get_git_file_name, is_article_page, select_root, store_article_cites,
    store_categories_in_git, CompileError,
};
use wikiquote::graph::Graph;
use wikiquote::store::{cite_hashes_insert, cite_hashes_new, put_text_blob};
use wikiquote::text::{ListItem, WikiNode};

fn id(name: &str, kind: bool) -> (String, bool) {
    (name.to_string(), kind)
}

fn repo_at(name: &str) -> Repository {
    let stamp = std::time::SystemTime::now()
        .duration_since(std::time::UNIX_EPOCH)
        .unwrap()
        .as_nanos();
    Repository::init(format!("/tmp/wikiquote_test_repos/{}_{}", name, stamp)).unwrap()
}

fn subtree_id(repo: &Repository, tree: &git2::Tree, name: &str) -> Oid {
    tree.get_name(name).unwrap().id()
}

#[test]
fn select_root_prefers_search_then_first_root() {
    let mut g = Graph::new();
    g.add(id("Top", true), "sub".to_string(), id("Mid", true));
    g.add(id("Mid", true), "leaf".to_string(), id("Leaf", false));
    let top = g.find_or_add_vertex(id("Top", true));
    let mid = g.find_or_add_vertex(id("Mid", true));
    assert_eq!(select_root(&g, &"Mid".to_string()).ok().unwrap(), mid);
    // an unknown search name falls back to the first root
    assert_eq!(select_root(&g, &"Missing".to_string()).ok().unwrap(), top);
    assert_eq!(select_root(&g, &String::new()).ok().unwrap(), top);
}

#[test]
fn select_root_fails_without_roots() {
    let mut g = Graph::new();
    g.add(id("A", true), "ab".to_string(), id("B", true));
    g.add(id("B", true), "ba".to_string(), id("A", true));
    let r = select_root(&g, &String::new());
    assert!(matches!(r, Err(CompileError::NoRootFound)));
}

#[test]
fn file_names_use_label_then_child_name_and_dash_slashes() {
    let mut g = Graph::new();
    g.add(id("A", true), "a/b".to_string(), id("B", false));
    g.add(id("A", true), String::new(), id("C/D", false));
    let a = g.find_or_add_vertex(id("A", true));
    let b = g.find_or_add_vertex(id("B", false));
    let c = g.find_or_add_vertex(id("C/D", false));
    assert_eq!(get_git_file_name(&g, a, b), "a-b");
    assert_eq!(get_git_file_name(&g, a, c), "C-D");
}

#[test]
fn is_article_page_checks_namespace_format_and_model() {
    let wiki = Some("text/x-wiki".to_string());
    let model = Some("wikitext".to_string());
    assert!(is_article_page(0, &wiki, &model));
    assert!(!is_article_page(14, &wiki, &model));
    assert!(!is_article_page(0, &None, &model));
    assert!(!is_article_page(0, &wiki, &Some("json".to_string())));
}

#[test]
fn p8_end_to_end_scenario() {
    let mut g = Graph::new();
    // Art1 is a member of CatA under "quote"; CatA of CatRoot under "sub"
    g.add(id("CatA", true), "quote".to_string(), id("Art1", false));
    g.add(id("CatRoot", true), "sub".to_string(), id("CatA", true));
    let art1 = g.find_or_add_vertex(id("Art1", false));
    let root = g.find_or_add_vertex(id("CatRoot", true));

    let repo = repo_at("p8");
    let mut cites = cite_hashes_new();
    let id1 = put_text_blob(&repo, "cite text 1").ok().unwrap();
    let id2 = put_text_blob(&repo, "cite text 2").ok().unwrap();
    cite_hashes_insert(&mut cites, art1, id1);
    cite_hashes_insert(&mut cites, art1, id2);

    let out = store_categories_in_git(&g, root, &cites, &repo).ok().unwrap();

    let root_tree = repo
        .find_tree(Oid::from_bytes(&out.root_tree).unwrap())
        .unwrap();
    assert!(root_tree.get_name("cat.txt").is_some());
    let cata_tree = repo
        .find_tree(subtree_id(&repo, &root_tree, "sub"))
        .unwrap();
    assert!(cata_tree.get_name("cat.txt").is_some());
    let art_tree = repo
        .find_tree(subtree_id(&repo, &cata_tree, "quote"))
        .unwrap();
    // the article tree holds its name marker and both citation leaves
    let marker = repo
        .find_blob(subtree_id(&repo, &art_tree, "art.txt"))
        .unwrap();
    assert_eq!(marker.content(), b"Art1");
    let c1 = repo.find_blob(subtree_id(&repo, &art_tree, "1.txt")).unwrap();
    assert_eq!(c1.content(), b"cite text 1");
    let c2 = repo.find_blob(subtree_id(&repo, &art_tree, "2.txt")).unwrap();
    assert_eq!(c2.content(), b"cite text 2");
    // the branch was published at the returned commit
    let branch = repo.find_branch("master", BranchType::Local).unwrap();
    let target = branch.get().target().unwrap();
    assert_eq!(target.as_bytes(), out.commit.as_slice());
    let commit = repo.find_commit(target).unwrap();
    assert_eq!(commit.tree_id().as_bytes(), out.root_tree.as_slice());
    assert_eq!(commit.parent_count(), 0);
}

#[test]
fn p6_compilation_is_deterministic() {
    let build = || {
        let mut g = Graph::new();
        g.add(id("CatA", true), "quote".to_string(), id("Art1", false));
        g.add(id("CatRoot", true), "sub".to_string(), id("CatA", true));
        let art1 = g.find_or_add_vertex(id("Art1", false));
        let root = g.find_or_add_vertex(id("CatRoot", true));
        (g, art1, root)
    };
    let (g1, art1_a, root_a) = build();
    let repo_a = repo_at("p6_a");
    let mut cites_a = cite_hashes_new();
    cite_hashes_insert(&mut cites_a, art1_a, put_text_blob(&repo_a, "same cite").ok().unwrap());
    let out_a = store_categories_in_git(&g1, root_a, &cites_a, &repo_a).ok().unwrap();

    let (g2, art1_b, root_b) = build();
    let repo_b = repo_at("p6_b");
    let mut cites_b = cite_hashes_new();
    cite_hashes_insert(&mut cites_b, art1_b, put_text_blob(&repo_b, "same cite").ok().unwrap());
    let out_b = store_categories_in_git(&g2, root_b, &cites_b, &repo_b).ok().unwrap();

    assert_eq!(out_a.root_tree, out_b.root_tree);
    // the commits differ only through their timestamps, the trees never do
}

#[test]
fn cycle_edges_are_left_out_of_the_compiled_tree() {
    let mut g = Graph::new();
    g.add(id("A", true), "ab".to_string(), id("B", true));
    g.add(id("B", true), "ba".to_string(), id("A", true));
    let a = g.find_or_add_vertex(id("A", true));
    let repo = repo_at("cycle");
    let cites = cite_hashes_new();
    let out = store_categories_in_git(&g, a, &cites, &repo).ok().unwrap();
    let root_tree = repo
        .find_tree(Oid::from_bytes(&out.root_tree).unwrap())
        .unwrap();
    let b_tree = repo.find_tree(subtree_id(&repo, &root_tree, "ab")).unwrap();
    // the cycle-closing edge from B back to A was neutralized
    assert!(b_tree.get_name("ba").is_none());
    assert!(b_tree.get_name("cat.txt").is_some());
}

#[test]
fn eleven_citations_get_base36_names() {
    let mut g = Graph::new();
    g.add(id("Cat", true), "q".to_string(), id("Art", false));
    let art = g.find_or_add_vertex(id("Art", false));
    let cat = g.find_or_add_vertex(id("Cat", true));
    let repo = repo_at("base36");
    let mut cites = cite_hashes_new();
    for k in 0..11 {
        let blob = put_text_blob(&repo, &format!("cite {}", k)).ok().unwrap();
        cite_hashes_insert(&mut cites, art, blob);
    }
    let out = store_categories_in_git(&g, cat, &cites, &repo).ok().unwrap();
    let root_tree = repo
        .find_tree(Oid::from_bytes(&out.root_tree).unwrap())
        .unwrap();
    let art_tree = repo.find_tree(subtree_id(&repo, &root_tree, "q")).unwrap();
    assert!(art_tree.get_name("1.txt").is_some());
    assert!(art_tree.get_name("9.txt").is_some());
    // the tenth and eleventh citations roll over to letters
    assert!(art_tree.get_name("a.txt").is_some());
    assert!(art_tree.get_name("b.txt").is_some());
    assert!(art_tree.get_name("10.txt").is_none());
}

#[test]
fn store_article_cites_matches_known_articles_only() {
    let mut g = Graph::new();
    g.add(id("Cat", true), "q".to_string(), id("Art1", false));
    let art1 = g.find_or_add_vertex(id("Art1", false));
    let repo = repo_at("article_cites");
    let mut cites = cite_hashes_new();

    let parsed = vec![WikiNode::UnorderedList {
        items: vec![ListItem {
            nodes: vec![WikiNode::Text { value: "quote body".to_string() }],
        }],
    }];
    // an unknown title stores nothing
    let r = store_article_cites(&g, "Absent", &parsed, &repo, &mut cites).ok().unwrap();
    assert_eq!(r, None);
    // a category-namespace title stores nothing
    let r = store_article_cites(&g, "Kategoria:Art1", &parsed, &repo, &mut cites).ok().unwrap();
    assert_eq!(r, None);
    // the known article stores one rendered citation blob
    let r = store_article_cites(&g, "Art1", &parsed, &repo, &mut cites).ok().unwrap();
    assert_eq!(r, Some(art1));

    let cat = g.find_or_add_vertex(id("Cat", true));
    let out = store_categories_in_git(&g, cat, &cites, &repo).ok().unwrap();
    let root_tree = repo
        .find_tree(Oid::from_bytes(&out.root_tree).unwrap())
        .unwrap();
    let art_tree = repo.find_tree(subtree_id(&repo, &root_tree, "q")).unwrap();
    let blob = repo.find_blob(subtree_id(&repo, &art_tree, "1.txt")).unwrap();
    assert_eq!(blob.content(), b"[Art1]\nquote body\n");
}
