//! The one entity behind books, sections and notes, and how one is found by id.

use vstd::prelude::*;
use crate::chars::same_text;

verus! {

/// What an item is. Books and sections hold other items; notes are leaves, and
/// only notes are searched.
#[derive(Clone, Copy, Debug, PartialEq, Eq, Structural)]
pub enum ItemKind {
    Book,
    Section,
    Note,
}

impl ItemKind {
    /// The kind that a name of the item table stands for.
    pub open spec fn named(name: Seq<char>) -> Option<ItemKind> {
        if name == "book"@ {
            Some(ItemKind::Book)
        } else if name == "section"@ {
            Some(ItemKind::Section)
        } else if name == "note"@ {
            Some(ItemKind::Note)
        } else {
            None
        }
    }

    /// Reads the kind of an item from its name in the item table: `book`,
    /// `section` or `note`. Any other name is no kind; a row with one is left out.
    pub fn parse(name: &str) -> (kind: Option<ItemKind>)
        ensures
            kind == ItemKind::named(name@),
    {
        if same_text(name, "book") {
            Some(ItemKind::Book)
        } else if same_text(name, "section") {
            Some(ItemKind::Section)
        } else if same_text(name, "note") {
            Some(ItemKind::Note)
        } else {
            None
        }
    }
}

/// A row of the item table.
#[derive(Clone, Debug)]
pub struct Item {
    /// Unique, never reassigned.
    pub id: String,
    /// For display; several items may share one.
    pub title: String,
    /// Rich text; only notes have any.
    pub content: Option<String>,
    pub kind: ItemKind,
    /// The item this one lies in; `None` for a root.
    pub parent_id: Option<String>,
    /// Position among its siblings.
    pub sort_order: i64,
    /// When it was deleted, if it was. Deleted items are kept out of search.
    pub deleted_at: Option<String>,
}

/// An item as the contracts see it.
pub struct ItemView {
    pub id: Seq<char>,
    pub title: Seq<char>,
    pub content: Option<Seq<char>>,
    pub kind: ItemKind,
    pub parent_id: Option<Seq<char>>,
    pub sort_order: int,
    pub deleted_at: Option<Seq<char>>,
}

/// The text of an optional string.
pub open spec fn text_of(s: Option<String>) -> Option<Seq<char>> {
    match s {
        Some(t) => Some(t@),
        None => None,
    }
}

impl View for Item {
    type V = ItemView;

    open spec fn view(&self) -> ItemView {
        ItemView {
            id: self.id@,
            title: self.title@,
            content: text_of(self.content),
            kind: self.kind,
            parent_id: text_of(self.parent_id),
            sort_order: self.sort_order as int,
            deleted_at: text_of(self.deleted_at),
        }
    }
}

/// The items of a table as the contracts see them.
pub open spec fn views(items: Seq<Item>) -> Seq<ItemView> {
    items.map_values(|it: Item| it@)
}

/// Whether `i` is the first position in `items` that holds the id `id`.
pub open spec fn is_first_with_id(items: Seq<ItemView>, id: Seq<char>, i: int) -> bool {
    &&& 0 <= i < items.len()
    &&& items[i].id == id
    &&& forall|j: int| 0 <= j < i ==> items[j].id != id
}

/// Where the item with id `id` stands in `items`: the first such position, as a
/// query for one row by id gives the first row.
pub open spec fn lookup(items: Seq<ItemView>, id: Seq<char>) -> Option<int> {
    if exists|i: int| is_first_with_id(items, id, i) {
        Some(choose|i: int| is_first_with_id(items, id, i))
    } else {
        None
    }
}

/// `lookup` gives `i` exactly when `i` is the first position with that id.
pub proof fn lemma_lookup_first(items: Seq<ItemView>, id: Seq<char>, i: int)
    ensures
        lookup(items, id) == Some(i) <==> is_first_with_id(items, id, i),
{
    if is_first_with_id(items, id, i) {
        let c = choose|c: int| is_first_with_id(items, id, c);
        assert(is_first_with_id(items, id, c));
        if c < i {
            assert(items[c].id != id);
        }
        if i < c {
            assert(items[i].id != id);
        }
    }
}

/// `lookup` gives nothing exactly when no item has that id.
pub proof fn lemma_lookup_none(items: Seq<ItemView>, id: Seq<char>)
    ensures
        lookup(items, id) is None <==> forall|j: int| 0 <= j < items.len() ==> items[j].id != id,
{
    if lookup(items, id) is None {
        if exists|j: int| 0 <= j < items.len() && items[j].id == id {
            let j = choose|j: int| 0 <= j < items.len() && items[j].id == id;
            lemma_first_exists(items, id, j);
        }
    } else {
        let c = choose|c: int| is_first_with_id(items, id, c);
        assert(is_first_with_id(items, id, c));
    }
}

/// If some position up to `j` holds `id`, a first one does.
proof fn lemma_first_exists(items: Seq<ItemView>, id: Seq<char>, j: int)
    requires
        0 <= j < items.len(),
        items[j].id == id,
    ensures
        exists|i: int| is_first_with_id(items, id, i),
    decreases j,
{
    if forall|k: int| 0 <= k < j ==> items[k].id != id {
        assert(is_first_with_id(items, id, j));
    } else {
        let k = choose|k: int| 0 <= k < j && items[k].id == id;
        lemma_first_exists(items, id, k);
    }
}

/// Finds the item with id `id`: its position, or `None` if there is none.
pub fn find_item(items: &Vec<Item>, id: &String) -> (found: Option<usize>)
    ensures
        match found {
            Some(i) => lookup(views(items@), id@) == Some(i as int),
            None => lookup(views(items@), id@) is None,
        },
{
    let mut i: usize = 0;
    while i < items.len()
        invariant
            i <= items.len(),
            forall|j: int| 0 <= j < i ==> views(items@)[j].id != id@,
        decreases items.len() - i,
    {
        if items[i].id == *id {
            proof {
                assert(views(items@)[i as int].id == id@);
                lemma_lookup_first(views(items@), id@, i as int);
            }
            return Some(i);
        }
        i += 1;
    }
    proof {
        lemma_lookup_none(views(items@), id@);
    }
    None
}

/// Whether the item has been deleted.
pub fn is_deleted(item: &Item) -> (deleted: bool)
    ensures
        deleted == item@.deleted_at.is_some(),
{
    item.deleted_at.is_some()
}

/// The items that have not been deleted, in table order.
pub open spec fn without_deleted(items: Seq<ItemView>) -> Seq<ItemView>
    decreases items.len(),
{
    if items.len() == 0 {
        Seq::empty()
    } else if items.last().deleted_at is None {
        without_deleted(items.drop_last()).push(items.last())
    } else {
        without_deleted(items.drop_last())
    }
}

/// A copy of the item.
pub fn copy_item(item: &Item) -> (copy: Item)
    ensures
        copy@ == item@,
{
    Item {
        id: item.id.clone(),
        title: item.title.clone(),
        content: item.content.clone(),
        kind: item.kind,
        parent_id: item.parent_id.clone(),
        sort_order: item.sort_order,
        deleted_at: item.deleted_at.clone(),
    }
}

/// The items that have not been deleted, in table order: what the views of the
/// table show.
pub fn live_items(items: &Vec<Item>) -> (live: Vec<Item>)
    ensures
        views(live@) == without_deleted(views(items@)),
{
    let ghost table = views(items@);
    let mut live: Vec<Item> = Vec::new();
    let mut i: usize = 0;
    while i < items.len()
        invariant
            i <= items.len(),
            table == views(items@),
            views(live@) == without_deleted(table.take(i as int)),
        decreases items.len() - i,
    {
        proof {
            assert(table.take(i + 1).drop_last() == table.take(i as int));
            assert(table[i as int] == items@[i as int]@);
        }
        if !is_deleted(&items[i]) {
            let ghost before = views(live@);
            let copy = copy_item(&items[i]);
            live.push(copy);
            proof {
                assert(views(live@) == before.push(copy@));
            }
        }
        i += 1;
    }
    proof {
        assert(table.take(items.len() as int) == table);
    }
    live
}

} // verus!
