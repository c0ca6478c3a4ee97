use irisnotes::item::{Item, ItemKind};
use irisnotes::normalize::truncate;
use irisnotes::search::{
    classify, container_candidates, content_preview, fts_query, in_matching_container,
    index_candidates, is_picked, is_searchable, search_notes, strip_html, title_matches,
    word_count, Candidate, FtsHit, MatchType, CHARS_PER_WORD, PREVIEW_CHARS, RESULT_LIMIT,
};

fn item(id: &str, title: &str, kind: ItemKind, parent: Option<&str>, content: Option<&str>) -> Item {
    Item {
        id: id.to_string(),
        title: title.to_string(),
        content: content.map(|c| c.to_string()),
        kind,
        parent_id: parent.map(|p| p.to_string()),
        sort_order: 0,
        deleted_at: None,
    }
}

fn hit(id: &str, snippet: &str) -> FtsHit {
    FtsHit { item_id: id.to_string(), snippet: snippet.to_string() }
}

fn chars(s: &str) -> Vec<char> {
    s.chars().collect()
}

fn shelf() -> Vec<Item> {
    vec![
        item("b1", "Rust Handbook", ItemKind::Book, None, None),
        item("s1", "Ownership", ItemKind::Section, Some("b1"), None),
        item("n1", "Borrowing rules", ItemKind::Note, Some("s1"), Some("<p>References &amp; lifetimes</p>")),
        item("n2", "Moves", ItemKind::Note, Some("s1"), Some("<p>About rust moves</p>")),
        item("n3", "Cargo", ItemKind::Note, Some("b1"), Some("")),
        item("n4", "Shopping", ItemKind::Note, None, Some("<ul><li>milk</li></ul>")),
        item("b2", "Cooking", ItemKind::Book, None, None),
        item("n5", "Rusty pans", ItemKind::Note, Some("b2"), None),
    ]
}

#[test]
fn limits_are_as_documented() {
    assert_eq!(RESULT_LIMIT, 15);
    assert_eq!(PREVIEW_CHARS, 80);
    assert_eq!(CHARS_PER_WORD, 6);
}

#[test]
fn fts_query_makes_prefix_terms() {
    assert_eq!(fts_query("hello world").as_deref(), Some("hello* world*"));
    assert_eq!(fts_query("  hello   world  ").as_deref(), Some("hello* world*"));
    assert_eq!(fts_query("one").as_deref(), Some("one*"));
}

#[test]
fn fts_query_strips_double_quotes() {
    assert_eq!(fts_query("\"exact phrase\"").as_deref(), Some("exact* phrase*"));
    assert_eq!(fts_query("a\"b").as_deref(), Some("ab*"));
    assert_eq!(fts_query("\"").as_deref(), Some("*"));
}

#[test]
fn fts_query_of_nothing_is_none() {
    assert_eq!(fts_query(""), None);
    assert_eq!(fts_query("   "), None);
    assert_eq!(fts_query(" \t\n "), None);
}

#[test]
fn search_for_nothing_finds_nothing() {
    let hits = vec![hit("n1", "x")];
    assert!(search_notes(&shelf(), &hits, "").is_empty());
    assert!(search_notes(&shelf(), &hits, "   \t ").is_empty());
}

#[test]
fn strip_html_for_previews_keeps_line_feeds() {
    assert_eq!(strip_html("<p>one</p>\n<p>two</p>"), "one\ntwo");
    assert_eq!(strip_html("a\n\nb"), "a\n\nb");
    assert_eq!(strip_html("<p>A&nbsp;&nbsp;B</p>"), "A B");
    for markup in ["a\n\nb", "<p>x</p>  <p>y</p>", " \t&lt;b&gt; ", "", "<i>un</i>closed <b"] {
        assert_eq!(strip_html(markup), irisnotes::normalize::strip_html(markup), "{markup:?}");
    }
}

#[test]
fn preview_of_short_text_is_the_text() {
    assert_eq!(content_preview("<p>Hello <b>there</b></p>"), "Hello there");
}

#[test]
fn preview_of_no_text_is_the_placeholder() {
    assert_eq!(content_preview(""), "Empty note");
    assert_eq!(content_preview("<p> </p>"), "Empty note");
}

#[test]
fn preview_of_long_text_is_cut_to_eighty() {
    let long: String = "x".repeat(81);
    assert_eq!(content_preview(&long), format!("{}...", "x".repeat(77)));
    assert_eq!(content_preview(&long).chars().count(), 80);
    let exact: String = "y".repeat(80);
    assert_eq!(content_preview(&exact), exact);
    let wide: String = "é".repeat(100);
    assert_eq!(content_preview(&wide), format!("{}...", "é".repeat(77)));
    let marked = format!("<p>{}</p>", "z".repeat(200));
    assert_eq!(content_preview(&marked), truncate(&"z".repeat(200), 80));
}

#[test]
fn preview_keeps_paragraph_breaks() {
    assert_eq!(content_preview("<p>one</p>\n<p>two</p>"), "one\ntwo");
}

#[test]
fn word_count_is_a_sixth_of_the_length() {
    assert_eq!(word_count(""), 0);
    assert_eq!(word_count("12345"), 0);
    assert_eq!(word_count("123456"), 1);
    assert_eq!(word_count("<p>References &amp; lifetimes</p>"), 5);
    assert_eq!(word_count("ééééééé"), 1);
}

#[test]
fn title_match_goes_before_content() {
    assert_eq!(classify(false, "borrowing rules", "borrow"), MatchType::Title);
}

#[test]
fn match_in_content_only() {
    assert_eq!(classify(false, "moves", "rust"), MatchType::Content);
}

#[test]
fn match_through_the_container() {
    assert_eq!(classify(true, "cargo", "rust"), MatchType::Parent);
    assert_eq!(classify(true, "rust", "rust"), MatchType::Parent);
}

#[test]
fn labels_of_match_types() {
    assert_eq!(MatchType::Title.label(), "title");
    assert_eq!(MatchType::Content.label(), "content");
    assert_eq!(MatchType::Parent.label(), "parent");
}

#[test]
fn searchable_are_live_notes_only() {
    let items = shelf();
    assert!(!is_searchable(&items[0]));
    assert!(!is_searchable(&items[1]));
    assert!(is_searchable(&items[2]));
    let mut gone = item("n9", "Gone", ItemKind::Note, None, None);
    gone.deleted_at = Some("2024-01-01".to_string());
    assert!(!is_searchable(&gone));
}

#[test]
fn title_matches_in_any_case() {
    let items = shelf();
    assert!(title_matches(&items[0], &chars("rust")));
    assert!(title_matches(&items[0], &chars("handbook")));
    assert!(!title_matches(&items[0], &chars("Rust")));
    assert!(!title_matches(&items[6], &chars("rust")));
    assert!(title_matches(&item("x", "ÄRGER", ItemKind::Note, None, None), &chars("ärger")));
}

#[test]
fn index_candidates_follow_the_hits() {
    let items = shelf();
    let hits = vec![hit("n2", "a"), hit("missing", "b"), hit("b1", "c"), hit("n1", "d")];
    assert_eq!(
        index_candidates(&items, &hits),
        vec![Candidate { index: 3, hit: Some(0) }, Candidate { index: 2, hit: Some(3) }]
    );
}

#[test]
fn container_matches_reach_two_levels_up() {
    let items = shelf();
    let q = chars("rust");
    assert!(in_matching_container(&items, 2, &q)); // section "Ownership" in book "Rust Handbook"
    assert!(in_matching_container(&items, 4, &q)); // directly in the book
    assert!(!in_matching_container(&items, 5, &q)); // no parent
    assert!(!in_matching_container(&items, 7, &q)); // in "Cooking"
    assert!(in_matching_container(&items, 2, &chars("owner")));
    assert!(!in_matching_container(&items, 4, &chars("owner")));
}

#[test]
fn grandparent_counts_only_if_it_is_a_book() {
    let items = vec![
        item("s0", "Rust corner", ItemKind::Section, None, None),
        item("s1", "Inner", ItemKind::Section, Some("s0"), None),
        item("n1", "Note", ItemKind::Note, Some("s1"), None),
    ];
    assert!(!in_matching_container(&items, 2, &chars("rust")));
    assert!(in_matching_container(&items, 2, &chars("inner")));
}

#[test]
fn picked_compares_ids() {
    let items = shelf();
    let chosen = vec![Candidate { index: 3, hit: Some(0) }];
    assert!(is_picked(&items, &chosen, &"n2".to_string()));
    assert!(!is_picked(&items, &chosen, &"n1".to_string()));
    assert!(!is_picked(&items, &Vec::new(), &"n2".to_string()));
}

#[test]
fn container_candidates_leave_out_what_the_index_found() {
    let items = shelf();
    let found = vec![Candidate { index: 3, hit: Some(0) }];
    assert_eq!(
        container_candidates(&items, &found, &chars("rust")),
        vec![Candidate { index: 2, hit: None }, Candidate { index: 4, hit: None }]
    );
}

#[test]
fn search_orders_index_hits_before_container_matches() {
    let items = shelf();
    let hits = vec![hit("n5", "<mark>Rust</mark>y pans"), hit("n2", "About <mark>rust</mark> moves")];
    let results = search_notes(&items, &hits, "Rust");
    let ids: Vec<&str> = results.iter().map(|r| r.id.as_str()).collect();
    assert_eq!(ids, vec!["n5", "n2", "n1", "n3"]);

    assert_eq!(results[0].title, "Rusty pans");
    assert_eq!(results[0].snippet, "<mark>Rust</mark>y pans");
    assert_eq!(results[0].content_preview, "Empty note");
    assert_eq!(results[0].book_name.as_deref(), Some("Cooking"));
    assert_eq!(results[0].section_name, None);
    assert_eq!(results[0].match_type, MatchType::Title);
    assert_eq!(results[0].word_count, 0);

    assert_eq!(results[1].title, "Moves");
    assert_eq!(results[1].content_preview, "About rust moves");
    assert_eq!(results[1].book_name.as_deref(), Some("Rust Handbook"));
    assert_eq!(results[1].section_name.as_deref(), Some("Ownership"));
    assert_eq!(results[1].match_type, MatchType::Content);
    assert_eq!(results[1].word_count, 3);

    assert_eq!(results[2].title, "Borrowing rules");
    assert_eq!(results[2].snippet, "");
    assert_eq!(results[2].content_preview, "References & lifetimes");
    assert_eq!(results[2].book_name.as_deref(), Some("Rust Handbook"));
    assert_eq!(results[2].section_name.as_deref(), Some("Ownership"));
    assert_eq!(results[2].match_type, MatchType::Parent);

    assert_eq!(results[3].title, "Cargo");
    assert_eq!(results[3].content_preview, "Empty note");
    assert_eq!(results[3].book_name.as_deref(), Some("Rust Handbook"));
    assert_eq!(results[3].section_name, None);
    assert_eq!(results[3].match_type, MatchType::Parent);
}

#[test]
fn note_with_the_query_in_its_title_is_a_title_match() {
    let items = vec![item("n", "Meeting notes", ItemKind::Note, None, Some("<p>agenda</p>"))];
    let results = search_notes(&items, &vec![hit("n", "Meeting")], "MEET");
    assert_eq!(results.len(), 1);
    assert_eq!(results[0].match_type, MatchType::Title);
}

#[test]
fn note_matched_on_content_with_unrelated_title_is_a_content_match() {
    let items = vec![item("n", "Untitled", ItemKind::Note, None, Some("<p>meeting agenda</p>"))];
    let results = search_notes(&items, &vec![hit("n", "meeting")], "meet");
    assert_eq!(results.len(), 1);
    assert_eq!(results[0].match_type, MatchType::Content);
    assert_eq!(results[0].book_name, None);
    assert_eq!(results[0].section_name, None);
}

#[test]
fn note_reached_through_its_section_is_a_parent_match() {
    let items = vec![
        item("s", "Meetings", ItemKind::Section, None, None),
        item("n", "Monday", ItemKind::Note, Some("s"), Some("<p>agenda</p>")),
    ];
    let results = search_notes(&items, &Vec::new(), "meet");
    assert_eq!(results.len(), 1);
    assert_eq!(results[0].id, "n");
    assert_eq!(results[0].match_type, MatchType::Parent);
    assert_eq!(results[0].book_name, None);
    assert_eq!(results[0].section_name.as_deref(), Some("Meetings"));
}

#[test]
fn deleted_notes_and_containers_are_no_results() {
    let mut items = shelf();
    items[3].deleted_at = Some("2024-01-01".to_string());
    items[4].deleted_at = Some("2024-01-01".to_string());
    let hits = vec![hit("n2", "x"), hit("b1", "y"), hit("s1", "z")];
    let results = search_notes(&items, &hits, "rust");
    let ids: Vec<&str> = results.iter().map(|r| r.id.as_str()).collect();
    assert_eq!(ids, vec!["n1"]);
}

#[test]
fn search_returns_fifteen_at_most() {
    let mut items = vec![item("b", "Big book", ItemKind::Book, None, None)];
    let mut hits = Vec::new();
    for k in 0..12 {
        items.push(item(&format!("h{k}"), &format!("Hit {k}"), ItemKind::Note, None, Some("big")));
        hits.push(hit(&format!("h{k}"), "big"));
    }
    for k in 0..12 {
        items.push(item(&format!("c{k}"), &format!("Child {k}"), ItemKind::Note, Some("b"), None));
    }
    let results = search_notes(&items, &hits, "big");
    assert_eq!(results.len(), 15);
    let ids: Vec<String> = results.iter().map(|r| r.id.clone()).collect();
    let mut want: Vec<String> = (0..12).map(|k| format!("h{k}")).collect();
    want.extend((0..3).map(|k| format!("c{k}")));
    assert_eq!(ids, want);
}

#[test]
fn searching_twice_gives_the_same() {
    let items = shelf();
    let hits = vec![hit("n5", "a"), hit("n2", "b")];
    let first = search_notes(&items, &hits, "rust");
    let second = search_notes(&items, &hits, "rust");
    assert_eq!(first.len(), second.len());
    for (a, b) in first.iter().zip(second.iter()) {
        assert_eq!(a.id, b.id);
        assert_eq!(a.title, b.title);
        assert_eq!(a.snippet, b.snippet);
        assert_eq!(a.content_preview, b.content_preview);
        assert_eq!(a.book_name, b.book_name);
        assert_eq!(a.section_name, b.section_name);
        assert_eq!(a.match_type, b.match_type);
        assert_eq!(a.word_count, b.word_count);
    }
}
