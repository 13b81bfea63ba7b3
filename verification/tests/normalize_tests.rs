use wikiquote::normalize::Normalizer;

#[test]
fn strips_polish_category_prefix() {
    let n = Normalizer::default();
    assert_eq!(
        n.normalize_category_name("Kategoria:Foo"),
        ("Foo".to_string(), true)
    );
}

#[test]
fn strips_english_category_prefix() {
    let n = Normalizer::default();
    assert_eq!(
        n.normalize_category_name("Category:Bar"),
        ("Bar".to_string(), true)
    );
}

#[test]
fn prefix_match_is_case_insensitive() {
    let n = Normalizer::default();
    assert_eq!(
        n.normalize_category_name("kategoria:Baz"),
        ("Baz".to_string(), true)
    );
    assert_eq!(
        n.normalize_category_name("CATEGORY:Qux"),
        ("Qux".to_string(), true)
    );
}

#[test]
fn non_category_title_is_cleaned_only() {
    let n = Normalizer::default();
    assert_eq!(
        n.normalize_category_name("  Plain   Title "),
        ("Plain Title".to_string(), false)
    );
}

#[test]
fn whitespace_runs_collapse_to_one_space() {
    let n = Normalizer::default();
    assert_eq!(
        n.normalize_category_name("Kategoria:  A \t B\u{00A0} C  "),
        ("A B C".to_string(), true)
    );
}

#[test]
fn left_to_right_marks_are_removed() {
    let n = Normalizer::default();
    assert_eq!(
        n.normalize_category_name("Kategoria:A\u{200E}B"),
        ("AB".to_string(), true)
    );
}

#[test]
fn only_the_first_colon_ends_the_prefix() {
    let n = Normalizer::default();
    assert_eq!(
        n.normalize_category_name("Category:X: Y"),
        ("X: Y".to_string(), true)
    );
}

#[test]
fn prefix_without_colon_elsewhere_is_not_a_category() {
    let n = Normalizer::default();
    assert_eq!(
        n.normalize_category_name("Categorylike title"),
        ("Categorylike title".to_string(), false)
    );
}
