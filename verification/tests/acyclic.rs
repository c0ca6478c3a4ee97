use irisnotes::acyclic::{is_acyclic, reaches_root_within};
use irisnotes::hierarchy::tree_rows;
use irisnotes::item::{Item, ItemKind};

fn item(id: &str, kind: ItemKind, parent: Option<&str>) -> Item {
    Item {
        id: id.to_string(),
        title: id.to_uppercase(),
        content: None,
        kind,
        parent_id: parent.map(|p| p.to_string()),
        sort_order: 0,
        deleted_at: None,
    }
}

fn chain() -> Vec<Item> {
    vec![
        item("a", ItemKind::Book, None),
        item("b", ItemKind::Section, Some("a")),
        item("c", ItemKind::Note, Some("b")),
    ]
}

#[test]
fn a_forest_has_no_cycle() {
    assert!(is_acyclic(&chain()));
    assert!(is_acyclic(&Vec::new()));
    assert!(is_acyclic(&vec![item("x", ItemKind::Note, Some("missing"))]));
}

#[test]
fn a_cycle_is_found() {
    let two = vec![item("a", ItemKind::Section, Some("b")), item("b", ItemKind::Section, Some("a"))];
    assert!(!is_acyclic(&two));
    let own = vec![item("a", ItemKind::Book, None), item("x", ItemKind::Note, Some("x"))];
    assert!(!is_acyclic(&own));
    let below = vec![
        item("a", ItemKind::Section, Some("b")),
        item("b", ItemKind::Section, Some("a")),
        item("n", ItemKind::Note, Some("a")),
        item("r", ItemKind::Book, None),
    ];
    assert!(!is_acyclic(&below));
}

#[test]
fn reaching_the_root_takes_one_item_per_level() {
    let items = chain();
    assert!(!reaches_root_within(&items, 0, 0));
    assert!(reaches_root_within(&items, 0, 1));
    assert!(!reaches_root_within(&items, 2, 2));
    assert!(reaches_root_within(&items, 2, 3));
    assert!(reaches_root_within(&items, 2, 100));
}

#[test]
fn tree_of_a_forest_shows_every_item_once() {
    let items = vec![
        item("n2", ItemKind::Note, Some("s")),
        item("s", ItemKind::Section, Some("b")),
        item("b", ItemKind::Book, None),
        item("n1", ItemKind::Note, Some("b")),
        item("o", ItemKind::Note, Some("nowhere")),
        item("n3", ItemKind::Note, Some("s")),
    ];
    assert!(is_acyclic(&items));
    let rows = tree_rows(&items);
    let mut seen = vec![0usize; items.len()];
    for row in &rows {
        seen[row.index] += 1;
    }
    assert_eq!(seen, vec![1; items.len()]);
    let shown: Vec<(usize, usize)> = rows.iter().map(|r| (r.index, r.depth)).collect();
    assert_eq!(shown, vec![(2, 0), (1, 1), (0, 2), (5, 2), (3, 1), (4, 0)]);
}
