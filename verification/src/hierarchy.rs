//! The hierarchy that parent references make of a flat table of items: the path of
//! titles from a root down to an item, and the forest of all items.

use vstd::prelude::*;
use crate::chars::{from_chars, join, joined, reversed, texts, to_chars};
use crate::item::{
    find_item, lemma_lookup_first, lemma_lookup_none, lookup, text_of, views, Item, ItemView,
};

verus! {

/// The titles met on the way up from `start`: of the item itself, of its parent,
/// and so on. The way ends at an item without a parent, at an id that no item has,
/// or after `fuel` items.
pub open spec fn ancestry(items: Seq<ItemView>, start: Option<Seq<char>>, fuel: nat) -> Seq<
    Seq<char>,
>
    decreases fuel,
{
    if fuel == 0 {
        Seq::empty()
    } else {
        match start {
            None => Seq::empty(),
            Some(id) => match lookup(items, id) {
                None => Seq::empty(),
                Some(i) => seq![items[i].title] + ancestry(
                    items,
                    items[i].parent_id,
                    (fuel - 1) as nat,
                ),
            },
        }
    }
}

/// The path of the item `id`: the titles from its root down to itself, joined by
/// ` / `. No way up through distinct items is longer than the table, so the walk
/// stops after as many items as the table has; only a cycle of parent references
/// is cut short by that.
pub open spec fn item_path(items: Seq<ItemView>, id: Seq<char>) -> Seq<char> {
    joined(ancestry(items, Some(id), items.len()).reverse(), " / "@)
}

/// The path of the item `id` in `items`, root first: `Book / Section / Note`. An id
/// that no item has gives the empty path, and a parent that is missing ends the
/// path as a root does.
pub fn get_item_path(items: &Vec<Item>, id: &str) -> (path: String)
    ensures
        path@ == item_path(views(items@), id@),
{
    let ghost table = views(items@);
    let mut parts: Vec<Vec<char>> = Vec::new();
    let mut current: Option<String> = Some(id.to_owned());
    let mut steps: usize = 0;
    while steps < items.len()
        invariant
            steps <= items.len(),
            table == views(items@),
            texts(parts@) + ancestry(
                table,
                text_of(current),
                (items.len() - steps) as nat,
            ) == ancestry(table, Some(id@), items.len() as nat),
        decreases items.len() - steps,
    {
        let ghost before = texts(parts@);
        let ghost fuel = (items.len() - steps) as nat;
        let next: Option<String> = match &current {
            None => None,
            Some(cur) => match find_item(items, cur) {
                None => None,
                Some(i) => {
                    parts.push(to_chars(items[i].title.as_str()));
                    proof {
                        assert(table[i as int] == items@[i as int]@);
                        assert(texts(parts@) == before.push(table[i as int].title));
                        let rest = ancestry(table, table[i as int].parent_id, (fuel - 1) as nat);
                        assert(before + (seq![table[i as int].title] + rest) == before.push(
                            table[i as int].title,
                        ) + rest);
                    }
                    items[i].parent_id.clone()
                },
            },
        };
        current = next;
        steps += 1;
    }
    proof {
        assert(texts(parts@) + Seq::<Seq<char>>::empty() == texts(parts@));
    }
    let root_first = reversed(parts);
    proof {
        assert(texts(root_first@) =~= texts(parts@).reverse());
    }
    from_chars(&join(&root_first, &to_chars(" / ")))
}

/// Where the parent of the item at position `i` stands, if the item names a
/// parent and the table holds it.
pub open spec fn parent_of(items: Seq<ItemView>, i: int) -> Option<int> {
    match items[i].parent_id {
        None => None,
        Some(p) => lookup(items, p),
    }
}

/// The positions below `n` of the roots: the items without a parent in the table,
/// in table order.
pub open spec fn roots_upto(items: Seq<ItemView>, n: int) -> Seq<int>
    decreases n,
{
    if n <= 0 {
        Seq::empty()
    } else if parent_of(items, n - 1) is None {
        roots_upto(items, n - 1).push(n - 1)
    } else {
        roots_upto(items, n - 1)
    }
}

/// The positions below `n` of the children of the item at position `p`, in table
/// order.
pub open spec fn children_upto(items: Seq<ItemView>, p: int, n: int) -> Seq<int>
    decreases n,
{
    if n <= 0 {
        Seq::empty()
    } else if parent_of(items, n - 1) == Some(p) {
        children_upto(items, p, n - 1).push(n - 1)
    } else {
        children_upto(items, p, n - 1)
    }
}

/// The roots of the table, in table order.
pub open spec fn root_positions(items: Seq<ItemView>) -> Seq<int> {
    roots_upto(items, items.len() as int)
}

/// The children of the item at position `p`, in table order.
pub open spec fn child_positions(items: Seq<ItemView>, p: int) -> Seq<int> {
    children_upto(items, p, items.len() as int)
}

/// Positions as the contracts count them.
pub open spec fn positions(v: Seq<usize>) -> Seq<int> {
    v.map_values(|x: usize| x as int)
}

/// The forest over a table of items, by position in the table. The table itself
/// is left as it is.
pub struct Forest {
    /// The items without a parent in the table.
    pub roots: Vec<usize>,
    /// For each item, its direct children.
    pub children: Vec<Vec<usize>>,
}

impl Forest {
    /// Whether this is the forest of `items`: the roots are the items that name no
    /// parent or one that the table lacks, every other item is a child of its
    /// parent, and siblings stand in table order.
    pub open spec fn is_forest_of(&self, items: Seq<ItemView>) -> bool {
        &&& positions(self.roots@) == root_positions(items)
        &&& self.children@.len() == items.len()
        &&& forall|p: int|
            0 <= p < items.len() ==> positions(#[trigger] self.children@[p]@) == child_positions(
                items,
                p,
            )
    }
}

/// Where the parent of the item at position `i` stands.
pub fn parent_position(items: &Vec<Item>, i: usize) -> (parent: Option<usize>)
    requires
        i < items.len(),
    ensures
        match parent {
            Some(p) => p < items.len() && parent_of(views(items@), i as int) == Some(p as int),
            None => parent_of(views(items@), i as int) is None,
        },
{
    assert(views(items@)[i as int] == items@[i as int]@);
    match &items[i].parent_id {
        None => None,
        Some(pid) => {
            let found = find_item(items, pid);
            proof {
                if let Some(p) = found {
                    lemma_lookup_first(views(items@), pid@, p as int);
                }
            }
            found
        },
    }
}

/// Groups the items by parent. An item whose parent is not in the table becomes a
/// root, so every item has exactly one place in the forest.
pub fn build_tree(items: &Vec<Item>) -> (forest: Forest)
    ensures
        forest.is_forest_of(views(items@)),
{
    let ghost table = views(items@);
    let mut roots: Vec<usize> = Vec::new();
    let mut children: Vec<Vec<usize>> = Vec::new();
    let mut k: usize = 0;
    while k < items.len()
        invariant
            k <= items.len(),
            children@.len() == k,
            forall|p: int| 0 <= p < k ==> (#[trigger] children@[p])@.len() == 0,
        decreases items.len() - k,
    {
        children.push(Vec::new());
        k += 1;
    }
    let mut i: usize = 0;
    while i < items.len()
        invariant
            i <= items.len(),
            table == views(items@),
            children@.len() == items.len(),
            positions(roots@) == roots_upto(table, i as int),
            forall|p: int|
                0 <= p < items.len() ==> positions(#[trigger] children@[p]@) == children_upto(
                    table,
                    p,
                    i as int,
                ),
        decreases items.len() - i,
    {
        let ghost before = children@;
        let ghost roots_before = roots@;
        match parent_position(items, i) {
            None => {
                roots.push(i);
                proof {
                    assert(positions(roots@) == positions(roots_before).push(i as int));
                }
            },
            Some(p) => {
                children[p].push(i);
                proof {
                    assert(positions(children@[p as int]@) == positions(before[p as int]@).push(
                        i as int,
                    ));
                    assert forall|q: int| 0 <= q < items.len() implies positions(
                        #[trigger] children@[q]@,
                    ) == children_upto(table, q, i + 1) by {
                        if q != p {
                            assert(children@[q] == before[q]);
                        }
                    }
                }
            },
        }
        i += 1;
    }
    Forest { roots, children }
}

/// What the lists of a forest hold: a position is among the roots exactly if the
/// item has no parent in the table, and among the children of `p` exactly if its
/// parent stands at `p`.
pub proof fn lemma_forest_members(items: Seq<ItemView>, p: int, n: int, i: int)
    requires
        n <= items.len(),
    ensures
        roots_upto(items, n).contains(i) <==> 0 <= i < n && parent_of(items, i) is None,
        children_upto(items, p, n).contains(i) <==> 0 <= i < n && parent_of(items, i) == Some(p),
    decreases n,
{
    if n > 0 {
        lemma_forest_members(items, p, n - 1, i);
        let r = roots_upto(items, n - 1);
        let c = children_upto(items, p, n - 1);
        if parent_of(items, n - 1) is None {
            assert(r.push(n - 1)[r.len() as int] == n - 1);
            assert forall|k: int| 0 <= k < r.len() implies r.push(n - 1)[k] == r[k] by {}
        }
        if parent_of(items, n - 1) == Some(p) {
            assert(c.push(n - 1)[c.len() as int] == n - 1);
            assert forall|k: int| 0 <= k < c.len() implies c.push(n - 1)[k] == c[k] by {}
        }
    }
}

/// Siblings, and roots, stand in table order: the positions in each list grow.
pub proof fn lemma_forest_order(items: Seq<ItemView>, p: int, n: int, a: int, b: int)
    requires
        n <= items.len(),
    ensures
        0 <= a < b < roots_upto(items, n).len() ==> roots_upto(items, n)[a] < roots_upto(
            items,
            n,
        )[b],
        0 <= a < b < children_upto(items, p, n).len() ==> children_upto(items, p, n)[a]
            < children_upto(items, p, n)[b],
    decreases n,
{
    if n > 0 {
        lemma_forest_order(items, p, n - 1, a, b);
        lemma_positions_in_table(items, p, n - 1, a);
    }
}

/// Every item has exactly one place in the forest: it is a root or the child of
/// exactly one item, never both, and no list holds it twice.
pub proof fn lemma_each_item_once(items: Seq<ItemView>, i: int)
    requires
        0 <= i < items.len(),
    ensures
        root_positions(items).contains(i) <==> forall|p: int|
            0 <= p < items.len() ==> !(#[trigger] child_positions(items, p)).contains(i),
        forall|p: int, q: int|
            0 <= p < items.len() && 0 <= q < items.len() && (#[trigger] child_positions(
                items,
                p,
            )).contains(i) && (#[trigger] child_positions(items, q)).contains(i) ==> p == q,
        forall|a: int, b: int|
            0 <= a < b < root_positions(items).len() ==> root_positions(items)[a]
                != root_positions(items)[b],
        forall|p: int, a: int, b: int|
            0 <= a < b < child_positions(items, p).len() ==> child_positions(items, p)[a]
                != child_positions(items, p)[b],
{
    let n = items.len() as int;
    lemma_forest_members(items, 0, n, i);
    assert forall|p: int| 0 <= p < n implies (#[trigger] child_positions(items, p)).contains(i)
        == (parent_of(items, i) == Some(p)) by {
        lemma_forest_members(items, p, n, i);
    }
    match parent_of(items, i) {
        Some(p) => {
            lemma_lookup_first(items, items[i].parent_id->0, p);
            assert(child_positions(items, p).contains(i));
        },
        None => {},
    }
    assert forall|a: int, b: int| 0 <= a < b < root_positions(items).len() implies root_positions(
        items,
    )[a] != root_positions(items)[b] by {
        lemma_forest_order(items, 0, n, a, b);
    }
    assert forall|p: int, a: int, b: int| 0 <= a < b < child_positions(items, p).len() implies
        child_positions(items, p)[a] != child_positions(items, p)[b] by {
        lemma_forest_order(items, p, n, a, b);
    }
}

/// The ids of the roots, as a set.
pub open spec fn root_ids(items: Seq<ItemView>) -> Set<Seq<char>> {
    root_positions(items).map_values(|i: int| items[i].id).to_set()
}

/// The ids of the children of the item with id `parent`, as a set.
pub open spec fn child_ids(items: Seq<ItemView>, parent: Seq<char>) -> Set<Seq<char>> {
    match lookup(items, parent) {
        None => Set::empty(),
        Some(p) => child_positions(items, p).map_values(|i: int| items[i].id).to_set(),
    }
}

/// Whether some item has the id `id`.
pub open spec fn has_id(items: Seq<ItemView>, id: Seq<char>) -> bool {
    exists|j: int| 0 <= j < items.len() && (#[trigger] items[j]).id == id
}

/// Whether some item with id `c` names `parent` as its parent, and `parent` is in
/// the table.
pub open spec fn names_parent(items: Seq<ItemView>, parent: Seq<char>, c: Seq<char>) -> bool {
    has_id(items, parent) && exists|i: int|
        0 <= i < items.len() && (#[trigger] items[i]).id == c && items[i].parent_id == Some(
            parent,
        )
}

/// Whether some item with id `c` names no parent, or one that is not in the table.
pub open spec fn names_no_parent(items: Seq<ItemView>, c: Seq<char>) -> bool {
    exists|i: int|
        0 <= i < items.len() && (#[trigger] items[i]).id == c && (items[i].parent_id is None
            || !has_id(items, items[i].parent_id->0))
}

/// The grouping in terms of what the items say, wherever they stand in the table.
pub proof fn lemma_grouping_by_content(items: Seq<ItemView>, parent: Seq<char>, c: Seq<char>)
    ensures
        child_ids(items, parent).contains(c) <==> names_parent(items, parent, c),
        root_ids(items).contains(c) <==> names_no_parent(items, c),
{
    let n = items.len() as int;
    lemma_lookup_none(items, parent);
    // children
    match lookup(items, parent) {
        None => {},
        Some(p) => {
            lemma_lookup_first(items, parent, p);
            let kids = child_positions(items, p);
            let ids = kids.map_values(|i: int| items[i].id);
            if child_ids(items, parent).contains(c) {
                let k = choose|k: int| 0 <= k < ids.len() && ids[k] == c;
                let i = kids[k];
                assert(kids.contains(i));
                lemma_forest_members(items, p, n, i);
                let q = items[i].parent_id->0;
                lemma_lookup_first(items, q, p);
                assert(items[i].id == c && items[i].parent_id == Some(parent));
                assert(items[p].id == parent);
            }
            if names_parent(items, parent, c) {
                let i = choose|i: int|
                    0 <= i < items.len() && (#[trigger] items[i]).id == c && items[i].parent_id
                        == Some(parent);
                lemma_forest_members(items, p, n, i);
                let k = choose|k: int| 0 <= k < kids.len() && kids[k] == i;
                assert(ids[k] == c);
                assert(ids.contains(c));
            }
        },
    }
    // roots
    let roots = root_positions(items);
    let rids = roots.map_values(|i: int| items[i].id);
    if root_ids(items).contains(c) {
        let k = choose|k: int| 0 <= k < rids.len() && rids[k] == c;
        let i = roots[k];
        assert(roots.contains(i));
        lemma_forest_members(items, 0, n, i);
        if items[i].parent_id is Some {
            lemma_lookup_none(items, items[i].parent_id->0);
        }
        assert(items[i].id == c);
    }
    if names_no_parent(items, c) {
        let i = choose|i: int|
            0 <= i < items.len() && (#[trigger] items[i]).id == c && (items[i].parent_id is None
                || !has_id(items, items[i].parent_id->0));
        if items[i].parent_id is Some {
            lemma_lookup_none(items, items[i].parent_id->0);
        }
        lemma_forest_members(items, 0, n, i);
        let k = choose|k: int| 0 <= k < roots.len() && roots[k] == i;
        assert(rids[k] == c);
        assert(rids.contains(c));
    }
}

/// What `has_id`, `names_parent` and `names_no_parent` say depends only on which
/// items the table holds.
proof fn lemma_same_items_same_names(
    a: Seq<ItemView>,
    b: Seq<ItemView>,
    parent: Seq<char>,
    c: Seq<char>,
)
    requires
        forall|x: ItemView| a.contains(x) ==> b.contains(x),
    ensures
        has_id(a, parent) ==> has_id(b, parent),
        names_parent(a, parent, c) ==> names_parent(b, parent, c),
{
    if has_id(a, parent) {
        let j = choose|j: int| 0 <= j < a.len() && (#[trigger] a[j]).id == parent;
        assert(a.contains(a[j]));
        let j2 = choose|j2: int| 0 <= j2 < b.len() && b[j2] == a[j];
        assert(b[j2].id == parent);
    }
    if names_parent(a, parent, c) {
        let i = choose|i: int|
            0 <= i < a.len() && (#[trigger] a[i]).id == c && a[i].parent_id == Some(parent);
        assert(a.contains(a[i]));
        let i2 = choose|i2: int| 0 <= i2 < b.len() && b[i2] == a[i];
        assert(b[i2].id == c && b[i2].parent_id == Some(parent));
    }
}

/// The same for items without a parent in the table.
proof fn lemma_same_items_same_roots(a: Seq<ItemView>, b: Seq<ItemView>, c: Seq<char>)
    requires
        forall|x: ItemView| a.contains(x) <==> b.contains(x),
    ensures
        names_no_parent(a, c) ==> names_no_parent(b, c),
{
    if names_no_parent(a, c) {
        let i = choose|i: int|
            0 <= i < a.len() && (#[trigger] a[i]).id == c && (a[i].parent_id is None || !has_id(
                a,
                a[i].parent_id->0,
            ));
        assert(a.contains(a[i]));
        let i2 = choose|i2: int| 0 <= i2 < b.len() && b[i2] == a[i];
        if a[i].parent_id is Some {
            lemma_same_items_same_names(b, a, a[i].parent_id->0, c);
        }
        assert(b[i2].id == c);
    }
}

/// The grouping does not depend on the order of the table: two tables that hold
/// the same items, in whatever order, have the same roots, and every item has the
/// same children in both.
pub proof fn lemma_grouping_ignores_order(a: Seq<ItemView>, b: Seq<ItemView>)
    requires
        a.to_multiset() == b.to_multiset(),
    ensures
        root_ids(a) == root_ids(b),
        forall|parent: Seq<char>| #[trigger] child_ids(a, parent) == child_ids(b, parent),
{
    assert forall|x: ItemView| a.contains(x) <==> b.contains(x) by {
        vstd::seq_lib::to_multiset_contains(a, x);
        vstd::seq_lib::to_multiset_contains(b, x);
    }
    assert forall|c: Seq<char>| root_ids(a).contains(c) == root_ids(b).contains(c) by {
        lemma_grouping_by_content(a, Seq::empty(), c);
        lemma_grouping_by_content(b, Seq::empty(), c);
        lemma_same_items_same_roots(a, b, c);
        lemma_same_items_same_roots(b, a, c);
    }
    assert(root_ids(a) =~= root_ids(b));
    assert forall|parent: Seq<char>| #[trigger] child_ids(a, parent) == child_ids(b, parent) by {
        assert forall|c: Seq<char>| child_ids(a, parent).contains(c) == child_ids(
            b,
            parent,
        ).contains(c) by {
            lemma_grouping_by_content(a, parent, c);
            lemma_grouping_by_content(b, parent, c);
            lemma_same_items_same_names(a, b, parent, c);
            lemma_same_items_same_names(b, a, parent, c);
        }
        assert(child_ids(a, parent) =~= child_ids(b, parent));
    }
}

/// Whether the table is sorted by `sort_order`.
pub open spec fn sorted_by_order(items: Seq<ItemView>) -> bool {
    forall|i: int, j: int|
        0 <= i <= j < items.len() ==> (#[trigger] items[i]).sort_order <= (
        #[trigger] items[j]).sort_order
}

/// In a table sorted by `sort_order`, siblings come in that order too, and so do
/// the roots.
pub proof fn lemma_siblings_keep_sort_order(items: Seq<ItemView>, p: int, a: int, b: int)
    requires
        sorted_by_order(items),
    ensures
        0 <= a <= b < child_positions(items, p).len() ==> items[child_positions(
            items,
            p,
        )[a]].sort_order <= items[child_positions(items, p)[b]].sort_order,
        0 <= a <= b < root_positions(items).len() ==> items[root_positions(items)[a]].sort_order
            <= items[root_positions(items)[b]].sort_order,
{
    let n = items.len() as int;
    lemma_forest_order(items, p, n, a, b);
    lemma_positions_in_table(items, p, n, a);
    lemma_positions_in_table(items, p, n, b);
}

/// One line of the tree view: an item and how deep it lies (roots at 0).
#[derive(Clone, Copy, Debug, PartialEq, Eq, Structural)]
pub struct TreeRow {
    pub index: usize,
    pub depth: usize,
}

/// Rows as the contracts see them: position and depth.
pub open spec fn row_views(rows: Seq<TreeRow>) -> Seq<(int, nat)> {
    rows.map_values(|r: TreeRow| (r.index as int, r.depth as nat))
}

/// The rows of the item at `node` and of all below it: the item first, then the
/// subtrees of its children in table order. `fuel` bounds how deep the rows go.
pub open spec fn subtree_rows(items: Seq<ItemView>, node: int, depth: nat, fuel: nat) -> Seq<
    (int, nat),
>
    decreases fuel, 0nat, 0nat,
{
    if fuel == 0 {
        Seq::empty()
    } else {
        seq![(node, depth)] + rows_of(
            items,
            child_positions(items, node),
            depth + 1,
            (fuel - 1) as nat,
        )
    }
}

/// The rows of the subtrees of `nodes`, one subtree after the other.
pub open spec fn rows_of(items: Seq<ItemView>, nodes: Seq<int>, depth: nat, fuel: nat) -> Seq<
    (int, nat),
>
    decreases fuel, 1nat, nodes.len(),
{
    if nodes.len() == 0 {
        Seq::empty()
    } else {
        rows_of(items, nodes.drop_last(), depth, fuel) + subtree_rows(
            items,
            nodes.last(),
            depth,
            fuel,
        )
    }
}

/// The tree view of the table: every root with its subtree, depth first, down to
/// as many levels as the table has items.
pub open spec fn tree_view(items: Seq<ItemView>) -> Seq<(int, nat)> {
    rows_of(items, root_positions(items), 0, items.len())
}

/// Every position in a list of children, or of roots, lies in the table.
pub proof fn lemma_positions_in_table(items: Seq<ItemView>, p: int, n: int, k: int)
    requires
        n <= items.len(),
    ensures
        0 <= k < children_upto(items, p, n).len() ==> 0 <= children_upto(items, p, n)[k] < n,
        0 <= k < roots_upto(items, n).len() ==> 0 <= roots_upto(items, n)[k] < n,
    decreases n,
{
    if n > 0 {
        lemma_positions_in_table(items, p, n - 1, k);
    }
}

/// Every row of a subtree names an item of the table.
pub proof fn lemma_subtree_rows_in_table(
    items: Seq<ItemView>,
    node: int,
    depth: nat,
    fuel: nat,
    k: int,
)
    requires
        0 <= node < items.len(),
        0 <= k < subtree_rows(items, node, depth, fuel).len(),
    ensures
        0 <= subtree_rows(items, node, depth, fuel)[k].0 < items.len(),
    decreases fuel, 0nat, 0nat,
{
    if fuel > 0 && k > 0 {
        let kids = child_positions(items, node);
        assert forall|j: int| 0 <= j < kids.len() implies 0 <= #[trigger] kids[j] < items.len() by {
            lemma_positions_in_table(items, node, items.len() as int, j);
        }
        lemma_rows_in_table(items, kids, depth + 1, (fuel - 1) as nat, k - 1);
    }
}

/// Every row of the subtrees of items of the table names an item of the table.
pub proof fn lemma_rows_in_table(
    items: Seq<ItemView>,
    nodes: Seq<int>,
    depth: nat,
    fuel: nat,
    k: int,
)
    requires
        forall|j: int| 0 <= j < nodes.len() ==> 0 <= #[trigger] nodes[j] < items.len(),
        0 <= k < rows_of(items, nodes, depth, fuel).len(),
    ensures
        0 <= rows_of(items, nodes, depth, fuel)[k].0 < items.len(),
    decreases fuel, 1nat, nodes.len(),
{
    if nodes.len() > 0 {
        let head = rows_of(items, nodes.drop_last(), depth, fuel);
        if k < head.len() {
            lemma_rows_in_table(items, nodes.drop_last(), depth, fuel, k);
        } else {
            lemma_subtree_rows_in_table(items, nodes.last(), depth, fuel, k - head.len());
        }
    }
}

/// Appends the rows of the subtrees of `nodes` to `out`.
fn push_rows(
    items: &Vec<Item>,
    forest: &Forest,
    nodes: &Vec<usize>,
    depth: usize,
    fuel: usize,
    out: &mut Vec<TreeRow>,
)
    requires
        forest.is_forest_of(views(items@)),
        depth + fuel <= items.len(),
        forall|k: int| 0 <= k < nodes.len() ==> nodes@[k] < items.len(),
    ensures
        row_views(final(out)@) == row_views(old(out)@) + rows_of(
            views(items@),
            positions(nodes@),
            depth as nat,
            fuel as nat,
        ),
    decreases fuel, 1nat, nodes.len(),
{
    let ghost table = views(items@);
    let mut k: usize = 0;
    proof {
        assert(positions(nodes@).take(0) == Seq::<int>::empty());
        assert(row_views(out@) + Seq::<(int, nat)>::empty() == row_views(out@));
    }
    while k < nodes.len()
        invariant
            k <= nodes.len(),
            table == views(items@),
            forest.is_forest_of(table),
            depth + fuel <= items.len(),
            forall|j: int| 0 <= j < nodes.len() ==> nodes@[j] < items.len(),
            row_views(out@) == row_views(old(out)@) + rows_of(
                table,
                positions(nodes@).take(k as int),
                depth as nat,
                fuel as nat,
            ),
        decreases nodes.len() - k,
    {
        let ghost before = row_views(out@);
        let ghost done = positions(nodes@).take(k as int);
        let ghost next = positions(nodes@).take(k + 1);
        let node = nodes[k];
        if fuel > 0 {
            out.push(TreeRow { index: node, depth });
            proof {
                assert(row_views(out@) == before.push((node as int, depth as nat)));
                assert forall|j: int| 0 <= j < forest.children@[node as int]@.len() implies (
                #[trigger] forest.children@[node as int]@[j]) < items.len() by {
                    lemma_positions_in_table(table, node as int, table.len() as int, j);
                    assert(positions(forest.children@[node as int]@)[j]
                        == forest.children@[node as int]@[j] as int);
                }
            }
            push_rows(items, forest, &forest.children[node], depth + 1, fuel - 1, out);
        }
        proof {
            assert(next.drop_last() == done);
            assert(next.last() == node as int);
            let sub = subtree_rows(table, node as int, depth as nat, fuel as nat);
            let head = rows_of(table, done, depth as nat, fuel as nat);
            assert(row_views(old(out)@) + (head + sub) == (row_views(old(out)@) + head) + sub);
            if fuel > 0 {
                let below = rows_of(
                    table,
                    child_positions(table, node as int),
                    (depth + 1) as nat,
                    (fuel - 1) as nat,
                );
                assert(before.push((node as int, depth as nat)) + below == before + (seq![
                    (node as int, depth as nat),
                ] + below));
            } else {
                assert(before + sub == before);
            }
        }
        k += 1;
    }
    proof {
        assert(positions(nodes@).take(nodes.len() as int) == positions(nodes@));
    }
}

/// The rows of the tree view: every root with all that lies below it, depth
/// first, siblings in table order.
pub fn tree_rows(items: &Vec<Item>) -> (rows: Vec<TreeRow>)
    ensures
        row_views(rows@) == tree_view(views(items@)),
        forall|k: int| 0 <= k < rows.len() ==> (#[trigger] rows@[k]).index < items.len(),
{
    let forest = build_tree(items);
    let mut rows: Vec<TreeRow> = Vec::new();
    proof {
        let table = views(items@);
        assert forall|k: int| 0 <= k < forest.roots@.len() implies (#[trigger] forest.roots@[k])
            < items.len() by {
            lemma_positions_in_table(table, 0, table.len() as int, k);
            assert(positions(forest.roots@)[k] == forest.roots@[k] as int);
        }
        assert(row_views(rows@) == Seq::<(int, nat)>::empty());
    }
    push_rows(items, &forest, &forest.roots, 0, items.len(), &mut rows);
    proof {
        let table = views(items@);
        assert(Seq::<(int, nat)>::empty() + tree_view(table) == tree_view(table));
        assert forall|k: int| 0 <= k < rows.len() implies (#[trigger] rows@[k]).index
            < items.len() by {
            let roots = root_positions(table);
            assert forall|j: int| 0 <= j < roots.len() implies 0 <= #[trigger] roots[j]
                < table.len() by {
                lemma_positions_in_table(table, 0, table.len() as int, j);
            }
            lemma_rows_in_table(table, roots, 0, table.len(), k);
            assert(row_views(rows@)[k] == (rows@[k].index as int, rows@[k].depth as nat));
        }
    }
    rows
}

} // verus!
