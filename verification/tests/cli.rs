use irisnotes::cli::{
    candidate_lines, content_matches, content_of, exit_status, format_tree_line,
    invalid_number_message, note_list, open_note_argument, preview, runs_command, search_heading,
    search_notes, search_report, select_note, shown_content, substring_scan, tree_lines, Cli,
    Commands, Selection, LIST_PREVIEW_CHARS, SEARCH_LIMIT,
};
use irisnotes::item::{Item, ItemKind};
use irisnotes::search::FtsHit;

fn item(id: &str, title: &str, kind: ItemKind, parent: Option<&str>, content: Option<&str>) -> Item {
    Item {
        id: id.to_string(),
        title: title.to_string(),
        content: content.map(|c| c.to_string()),
        kind,
        parent_id: parent.map(|p| p.to_string()),
        sort_order: 0,
        deleted_at: None,
    }
}

fn note(id: &str, title: &str) -> Item {
    item(id, title, ItemKind::Note, None, None)
}

fn hit(id: &str) -> FtsHit {
    FtsHit { item_id: id.to_string(), snippet: String::new() }
}

fn shelf() -> Vec<Item> {
    vec![
        item("b1", "Rust Handbook", ItemKind::Book, None, None),
        item("s1", "Ownership", ItemKind::Section, Some("b1"), None),
        item("n1", "Borrowing rules", ItemKind::Note, Some("s1"), Some("<p>References &amp; lifetimes</p>")),
        item("n2", "Moves", ItemKind::Note, Some("s1"), Some("<p>About RUST moves</p>\n<p>second</p>")),
        item("n3", "Cargo", ItemKind::Note, Some("b1"), Some("")),
        item("n4", "Shopping", ItemKind::Note, None, Some("<ul><li>milk</li></ul>")),
    ]
}

#[test]
fn limits_of_the_command_line() {
    assert_eq!(LIST_PREVIEW_CHARS, 60);
    assert_eq!(SEARCH_LIMIT, 10);
}

#[test]
fn command_runs_only_without_a_note_to_open() {
    let with_command = Cli { open_note: None, command: Some(Commands::Tree) };
    assert!(runs_command(&with_command));
    let with_both = Cli { open_note: Some("n1".to_string()), command: Some(Commands::List { full: false }) };
    assert!(!runs_command(&with_both));
    let with_nothing = Cli { open_note: None, command: None };
    assert!(!runs_command(&with_nothing));
}

#[test]
fn select_among_none_finds_nothing() {
    assert_eq!(select_note(&Vec::new(), None), Selection::NotFound);
    assert_eq!(select_note(&Vec::new(), Some(1)), Selection::NotFound);
}

#[test]
fn select_the_only_one() {
    let notes = vec![note("x", "X")];
    assert_eq!(select_note(&notes, None), Selection::Chosen(0));
    assert_eq!(select_note(&notes, Some(1)), Selection::Chosen(0));
    assert_eq!(select_note(&notes, Some(7)), Selection::Chosen(0));
    assert_eq!(select_note(&notes, Some(0)), Selection::Chosen(0));
}

#[test]
fn select_by_number_counts_from_one() {
    let notes = vec![note("x", "T"), note("y", "T")];
    assert_eq!(select_note(&notes, Some(1)), Selection::Chosen(0));
    assert_eq!(select_note(&notes, Some(2)), Selection::Chosen(1));
}

#[test]
fn select_with_a_number_out_of_range_is_its_own_case() {
    let notes = vec![note("x", "T"), note("y", "T")];
    assert_eq!(select_note(&notes, Some(3)), Selection::InvalidNumber);
    assert_eq!(select_note(&notes, Some(0)), Selection::InvalidNumber);
    assert_ne!(select_note(&notes, Some(3)), select_note(&Vec::new(), None));
    assert_ne!(select_note(&notes, Some(3)), select_note(&notes, None));
}

#[test]
fn select_among_several_without_a_number_is_ambiguous() {
    let notes = vec![note("x", "T"), note("y", "T"), note("z", "T")];
    assert_eq!(select_note(&notes, None), Selection::Ambiguous);
}

#[test]
fn only_a_chosen_note_ends_with_status_zero() {
    assert_eq!(exit_status(Selection::Chosen(3)), 0);
    assert_eq!(exit_status(Selection::NotFound), 1);
    assert_eq!(exit_status(Selection::Ambiguous), 1);
    assert_eq!(exit_status(Selection::InvalidNumber), 1);
}

#[test]
fn invalid_number_message_names_the_range() {
    assert_eq!(invalid_number_message(3, 2), "Invalid number 3. Use 1-2");
    assert_eq!(invalid_number_message(0, 12), "Invalid number 0. Use 1-12");
}

#[test]
fn candidate_lines_are_numbered_from_one() {
    let notes = vec![note("id-a", "Same"), note("id-b", "Same")];
    assert_eq!(candidate_lines(&notes), vec!["  1. Same (ID: id-a)", "  2. Same (ID: id-b)"]);
    assert!(candidate_lines(&Vec::new()).is_empty());
}

#[test]
fn preview_is_one_line_of_sixty() {
    assert_eq!(preview("<p>one</p>\n<p>two</p>", false), "one two");
    assert_eq!(preview("<p>one</p>\n<p>two</p>", true), "one\ntwo");
    let long = "a".repeat(61);
    assert_eq!(preview(&long, false), format!("{}...", "a".repeat(57)));
    assert_eq!(preview(&long, true), long);
    let exact = "b".repeat(60);
    assert_eq!(preview(&exact, false), exact);
    assert_eq!(preview("", false), "");
}

#[test]
fn content_of_an_item_without_content_is_empty() {
    assert_eq!(content_of(&note("x", "X")), "");
    assert_eq!(content_of(&item("x", "X", ItemKind::Note, None, Some("<p>t</p>"))), "<p>t</p>");
}

#[test]
fn note_list_shows_notes_only() {
    let lines = note_list(&shelf(), false);
    let got: Vec<(&str, &str)> = lines.iter().map(|l| (l.heading.as_str(), l.preview.as_str())).collect();
    assert_eq!(
        got,
        vec![
            ("Borrowing rules", "References & lifetimes"),
            ("Moves", "About RUST moves second"),
            ("Cargo", ""),
            ("Shopping", "milk"),
        ]
    );
    let full = note_list(&shelf(), true);
    assert_eq!(full[1].preview, "About RUST moves\nsecond");
}

#[test]
fn substring_scan_looks_at_title_and_content_in_any_case() {
    let items = shelf();
    assert_eq!(substring_scan(&items, "rust"), vec![3]);
    assert_eq!(substring_scan(&items, "RULES"), vec![2]);
    assert_eq!(substring_scan(&items, "o"), vec![2, 3, 4, 5]);
    assert_eq!(substring_scan(&items, "handbook"), Vec::<usize>::new());
    assert_eq!(substring_scan(&items, "&amp;"), vec![2]);
}

#[test]
fn content_matches_lowers_the_content() {
    let items = shelf();
    let q: Vec<char> = "about rust".chars().collect();
    assert!(content_matches(&items[3], &q));
    assert!(!content_matches(&items[2], &q));
    assert!(!content_matches(&items[0], &q));
}

#[test]
fn search_takes_the_first_tier_if_it_found_anything() {
    let items = shelf();
    let hits = vec![hit("n4"), hit("n1")];
    assert_eq!(search_notes(&items, Some(&hits), "o"), vec![5, 2]);
}

#[test]
fn search_falls_back_when_the_first_tier_is_empty_or_failed() {
    let items = shelf();
    assert_eq!(search_notes(&items, Some(&Vec::new()), "rust"), vec![3]);
    assert_eq!(search_notes(&items, None, "rust"), vec![3]);
    // hits that name no searchable note count as nothing found
    assert_eq!(search_notes(&items, Some(&vec![hit("b1"), hit("zz")]), "rust"), vec![3]);
}

#[test]
fn search_for_blank_input_is_empty() {
    let items = shelf();
    let hits = vec![hit("n4")];
    assert!(search_notes(&items, Some(&hits), "").is_empty());
    assert!(search_notes(&items, Some(&hits), "  \t").is_empty());
    assert!(search_notes(&items, None, " ").is_empty());
}

#[test]
fn search_returns_ten_at_most() {
    let mut items = Vec::new();
    for k in 0..14 {
        items.push(item(&format!("n{k}"), &format!("Topic {k}"), ItemKind::Note, None, None));
    }
    assert_eq!(search_notes(&items, None, "topic"), (0..10).collect::<Vec<usize>>());
    let hits: Vec<FtsHit> = (0..14).rev().map(|k| hit(&format!("n{k}"))).collect();
    assert_eq!(search_notes(&items, Some(&hits), "topic"), (4..14).rev().collect::<Vec<usize>>());
}

#[test]
fn repeated_search_is_the_same() {
    let items = shelf();
    let hits = vec![hit("n4"), hit("n1")];
    assert_eq!(search_notes(&items, Some(&hits), "o"), search_notes(&items, Some(&hits), "o"));
    assert_eq!(search_notes(&items, None, "o"), search_notes(&items, None, "o"));
}

#[test]
fn search_heading_counts() {
    assert_eq!(search_heading(0, "zebra"), "No notes found matching 'zebra'");
    assert_eq!(search_heading(1, "zebra"), "Found 1 result:");
    assert_eq!(search_heading(2, "zebra"), "Found 2 results:");
    assert_eq!(search_heading(10, "zebra"), "Found 10 results:");
}

#[test]
fn search_report_shows_path_and_preview() {
    let items = shelf();
    let lines = search_report(&items, &vec![3, 5]);
    assert_eq!(lines.len(), 2);
    assert_eq!(lines[0].heading, "Rust Handbook / Ownership / Moves");
    assert_eq!(lines[0].preview, "About RUST moves second");
    assert_eq!(lines[1].heading, "Shopping");
    assert_eq!(lines[1].preview, "milk");
}

#[test]
fn tree_line_is_indented_by_depth() {
    let items = shelf();
    assert_eq!(format_tree_line(&items[0], 0), "\u{1F4DA} Rust Handbook");
    assert_eq!(format_tree_line(&items[1], 1), "  \u{1F4C1} Ownership");
    assert_eq!(format_tree_line(&items[2], 2), "    \u{1F4DD} Borrowing rules");
}

#[test]
fn tree_lines_show_the_forest() {
    let lines = tree_lines(&shelf());
    assert_eq!(
        lines,
        vec![
            "\u{1F4DA} Rust Handbook",
            "  \u{1F4C1} Ownership",
            "    \u{1F4DD} Borrowing rules",
            "    \u{1F4DD} Moves",
            "  \u{1F4DD} Cargo",
            "\u{1F4DD} Shopping",
        ]
    );
}

#[test]
fn tree_lines_leave_deleted_items_out() {
    let mut items = shelf();
    items[1].deleted_at = Some("2024-02-02".to_string());
    let lines = tree_lines(&items);
    // the notes of the deleted section have lost their parent and stand as roots
    assert_eq!(
        lines,
        vec![
            "\u{1F4DA} Rust Handbook",
            "  \u{1F4DD} Cargo",
            "\u{1F4DD} Borrowing rules",
            "\u{1F4DD} Moves",
            "\u{1F4DD} Shopping",
        ]
    );
}

#[test]
fn shown_content_is_raw_or_plain() {
    let items = shelf();
    assert_eq!(shown_content(&items[2], true), "<p>References &amp; lifetimes</p>");
    assert_eq!(shown_content(&items[2], false), "References & lifetimes");
    assert_eq!(shown_content(&items[0], true), "");
    assert_eq!(shown_content(&items[0], false), "");
}

#[test]
fn open_note_argument_carries_the_id() {
    assert_eq!(open_note_argument("abc-123"), "--open-note=abc-123");
}
