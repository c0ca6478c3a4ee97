//! Tables whose parent references make no cycle: how to tell one, and what
//! holds of paths in it.

use vstd::prelude::*;
use crate::chars::joined;
use crate::hierarchy::{
    ancestry, child_positions, item_path, lemma_forest_members, lemma_forest_order, parent_of,
    parent_position, root_positions, rows_of, subtree_rows, tree_view,
};
use crate::item::{is_first_with_id, lemma_lookup_first, lookup, views, Item, ItemView};

verus! {

/// Whether the way up from the item at position `i` reaches a root within `fuel`
/// items, the item itself included.
pub open spec fn reaches_root(items: Seq<ItemView>, i: int, fuel: nat) -> bool
    decreases fuel,
{
    fuel > 0 && match parent_of(items, i) {
        None => true,
        Some(p) => reaches_root(items, p, (fuel - 1) as nat),
    }
}

/// Whether the parent references of the table make no cycle: from every item the
/// way up reaches a root. No such way is longer than the table.
pub open spec fn acyclic(items: Seq<ItemView>) -> bool {
    forall|i: int| 0 <= i < items.len() ==> reaches_root(items, i, items.len())
}

/// Whether the way up from the item at position `i` reaches a root within `fuel`
/// items.
pub fn reaches_root_within(items: &Vec<Item>, i: usize, fuel: usize) -> (r: bool)
    requires
        i < items.len(),
    ensures
        r == reaches_root(views(items@), i as int, fuel as nat),
{
    let ghost table = views(items@);
    let mut at: usize = i;
    let mut left: usize = fuel;
    while left > 0
        invariant
            at < items.len(),
            table == views(items@),
            reaches_root(table, i as int, fuel as nat) == reaches_root(
                table,
                at as int,
                left as nat,
            ),
        decreases left,
    {
        match parent_position(items, at) {
            None => {
                return true;
            },
            Some(p) => {
                at = p;
                left -= 1;
            },
        }
    }
    false
}

/// Whether the parent references of the table make no cycle.
pub fn is_acyclic(items: &Vec<Item>) -> (r: bool)
    ensures
        r == acyclic(views(items@)),
{
    let mut i: usize = 0;
    while i < items.len()
        invariant
            i <= items.len(),
            forall|j: int| 0 <= j < i ==> reaches_root(views(items@), j, items@.len()),
        decreases items.len() - i,
    {
        if !reaches_root_within(items, i, items.len()) {
            return false;
        }
        i += 1;
    }
    true
}

/// More fuel than the way up needs changes nothing of what is met on it.
pub proof fn lemma_fuel_to_spare(
    items: Seq<ItemView>,
    id: Seq<char>,
    i: int,
    fuel: nat,
    more: nat,
)
    requires
        lookup(items, id) == Some(i),
        reaches_root(items, i, fuel),
        fuel <= more,
    ensures
        ancestry(items, Some(id), more) == ancestry(items, Some(id), fuel),
    decreases fuel,
{
    assert(ancestry(items, Some(id), more) == seq![items[i].title] + ancestry(
        items,
        items[i].parent_id,
        (more - 1) as nat,
    ));
    assert(ancestry(items, Some(id), fuel) == seq![items[i].title] + ancestry(
        items,
        items[i].parent_id,
        (fuel - 1) as nat,
    ));
    match items[i].parent_id {
        None => {
            assert(ancestry(items, None, (fuel - 1) as nat) == Seq::<Seq<char>>::empty());
            assert(ancestry(items, None, (more - 1) as nat) == Seq::<Seq<char>>::empty());
        },
        Some(parent) => {
            match lookup(items, parent) {
                None => {
                    assert(ancestry(items, Some(parent), (fuel - 1) as nat) == Seq::<
                        Seq<char>,
                    >::empty());
                    assert(ancestry(items, Some(parent), (more - 1) as nat) == Seq::<
                        Seq<char>,
                    >::empty());
                },
                Some(p) => {
                    lemma_fuel_to_spare(items, parent, p, (fuel - 1) as nat, (more - 1) as nat);
                },
            }
        },
    }
}

/// The path of an id that no item has is empty.
pub proof fn lemma_path_of_unknown(items: Seq<ItemView>, id: Seq<char>)
    requires
        lookup(items, id) is None,
    ensures
        item_path(items, id) == Seq::<char>::empty(),
{
    assert(ancestry(items, Some(id), items.len()) == Seq::<Seq<char>>::empty());
    assert(Seq::<Seq<char>>::empty().reverse() =~= Seq::<Seq<char>>::empty());
}

/// The path of a root is its title.
pub proof fn lemma_path_of_root(items: Seq<ItemView>, i: int)
    requires
        is_first_with_id(items, items[i].id, i),
        parent_of(items, i) is None,
    ensures
        item_path(items, items[i].id) == items[i].title,
{
    let n = items.len();
    lemma_lookup_first(items, items[i].id, i);
    let rest = ancestry(items, items[i].parent_id, (n - 1) as nat);
    assert(rest == Seq::<Seq<char>>::empty());
    let way = ancestry(items, Some(items[i].id), n);
    assert(way =~= seq![items[i].title]);
    assert(way.reverse() =~= seq![items[i].title]);
}

/// In a table without cycles, the path of an item with a parent is the path of
/// the parent, ` / `, and the title of the item.
pub proof fn lemma_path_of_child(items: Seq<ItemView>, i: int, p: int)
    requires
        is_first_with_id(items, items[i].id, i),
        parent_of(items, i) == Some(p),
        reaches_root(items, i, items.len()),
    ensures
        item_path(items, items[i].id) == item_path(items, items[p].id) + " / "@ + items[i].title,
{
    let n = items.len();
    let sep = " / "@;
    let parent = items[i].parent_id->0;
    lemma_lookup_first(items, items[i].id, i);
    lemma_lookup_first(items, parent, p);
    assert(items[p].id == parent);
    let above = ancestry(items, Some(parent), n);
    lemma_fuel_to_spare(items, parent, p, (n - 1) as nat, n);
    let way = ancestry(items, Some(items[i].id), n);
    assert(way == seq![items[i].title] + above);
    assert(above.len() > 0);
    let down = above.reverse();
    assert(way.reverse() =~= down.push(items[i].title));
    assert(down.push(items[i].title).drop_last() =~= down);
    assert(joined(down.push(items[i].title), sep) == joined(down, sep) + sep + items[i].title);
}

/// How many steps lead up from the item at position `i` to its root, counted as
/// far as `fuel` items reach.
pub open spec fn depth_of(items: Seq<ItemView>, i: int, fuel: nat) -> nat
    decreases fuel,
{
    if fuel == 0 {
        0
    } else {
        match parent_of(items, i) {
            None => 0,
            Some(p) => 1 + depth_of(items, p, (fuel - 1) as nat),
        }
    }
}

/// Whether exactly `d` steps lead up from the item at position `i` to a root.
pub open spec fn at_depth(items: Seq<ItemView>, i: int, d: nat) -> bool
    decreases d,
{
    match parent_of(items, i) {
        None => d == 0,
        Some(p) => d > 0 && at_depth(items, p, (d - 1) as nat),
    }
}

/// The item `k` steps up from the item at position `i`, if the way up is that
/// long.
pub open spec fn ancestor(items: Seq<ItemView>, i: int, k: nat) -> Option<int>
    decreases k,
{
    if k == 0 {
        Some(i)
    } else {
        match ancestor(items, i, (k - 1) as nat) {
            Some(x) => parent_of(items, x),
            None => None,
        }
    }
}

/// An item lies at one depth only.
proof fn lemma_one_depth(items: Seq<ItemView>, i: int, d1: nat, d2: nat)
    requires
        at_depth(items, i, d1),
        at_depth(items, i, d2),
    ensures
        d1 == d2,
    decreases d1,
{
    match parent_of(items, i) {
        None => {},
        Some(p) => {
            lemma_one_depth(items, p, (d1 - 1) as nat, (d2 - 1) as nat);
        },
    }
}

/// An item that reaches a root lies at the depth that the steps up count, and
/// that depth is less than the items that the way up may take.
proof fn lemma_depth_counted(items: Seq<ItemView>, i: int, fuel: nat)
    requires
        reaches_root(items, i, fuel),
    ensures
        at_depth(items, i, depth_of(items, i, fuel)),
        depth_of(items, i, fuel) < fuel,
    decreases fuel,
{
    match parent_of(items, i) {
        None => {},
        Some(p) => {
            lemma_depth_counted(items, p, (fuel - 1) as nat);
        },
    }
}

/// The rows of each of several subtrees are among the rows of all of them.
proof fn lemma_subtree_rows_included(
    items: Seq<ItemView>,
    nodes: Seq<int>,
    depth: nat,
    fuel: nat,
    m: int,
    row: (int, nat),
)
    requires
        0 <= m < nodes.len(),
        subtree_rows(items, nodes[m], depth, fuel).contains(row),
    ensures
        rows_of(items, nodes, depth, fuel).contains(row),
    decreases nodes.len(),
{
    let head = rows_of(items, nodes.drop_last(), depth, fuel);
    let last = subtree_rows(items, nodes.last(), depth, fuel);
    if m == nodes.len() - 1 {
        let k = choose|k: int| 0 <= k < last.len() && last[k] == row;
        assert((head + last)[head.len() + k] == row);
    } else {
        assert(nodes.drop_last()[m] == nodes[m]);
        lemma_subtree_rows_included(items, nodes.drop_last(), depth, fuel, m, row);
        let k = choose|k: int| 0 <= k < head.len() && head[k] == row;
        assert((head + last)[k] == row);
    }
}

/// Whatever stands in the subtree of an item that reaches a root, shown from
/// the depth of the item, stands in the tree view.
proof fn lemma_subtree_in_view(items: Seq<ItemView>, i: int, fuel: nat, row: (int, nat))
    requires
        0 <= i < items.len(),
        fuel <= items.len(),
        reaches_root(items, i, fuel),
        subtree_rows(
            items,
            i,
            depth_of(items, i, fuel),
            (items.len() - depth_of(items, i, fuel)) as nat,
        ).contains(row),
    ensures
        tree_view(items).contains(row),
    decreases fuel,
{
    let n = items.len();
    lemma_forest_members(items, 0, n as int, i);
    match parent_of(items, i) {
        None => {
            let roots = root_positions(items);
            let m = choose|m: int| 0 <= m < roots.len() && roots[m] == i;
            lemma_subtree_rows_included(items, roots, 0, n, m, row);
        },
        Some(p) => {
            lemma_lookup_first(items, items[i].parent_id->0, p);
            lemma_depth_counted(items, p, (fuel - 1) as nat);
            let dp = depth_of(items, p, (fuel - 1) as nat);
            let kids = child_positions(items, p);
            lemma_forest_members(items, p, n as int, i);
            let m = choose|m: int| 0 <= m < kids.len() && kids[m] == i;
            lemma_subtree_rows_included(items, kids, dp + 1, (n - dp - 1) as nat, m, row);
            let below = rows_of(items, kids, dp + 1, (n - dp - 1) as nat);
            let of_parent = subtree_rows(items, p, dp, (n - dp) as nat);
            assert(of_parent == seq![(p, dp)] + below);
            let k = choose|k: int| 0 <= k < below.len() && below[k] == row;
            assert(of_parent[k + 1] == row);
            lemma_subtree_in_view(items, p, (fuel - 1) as nat, row);
        },
    }
}

/// In a table without cycles the tree view shows every item, at its depth.
pub proof fn lemma_tree_shows_every_item(items: Seq<ItemView>, i: int)
    requires
        acyclic(items),
        0 <= i < items.len(),
    ensures
        tree_view(items).contains((i, depth_of(items, i, items.len()))),
{
    let n = items.len();
    let d = depth_of(items, i, n);
    lemma_depth_counted(items, i, n);
    let rows = subtree_rows(items, i, d, (n - d) as nat);
    assert(rows[0] == (i, d));
    lemma_subtree_in_view(items, i, n, (i, d));
}

/// Where a row of a subtree comes from: its item lies at the depth that the row
/// gives, and the top of the subtree is its ancestor that many levels up.
proof fn lemma_subtree_row_origin(
    items: Seq<ItemView>,
    node: int,
    depth: nat,
    fuel: nat,
    k: int,
)
    requires
        at_depth(items, node, depth),
        0 <= k < subtree_rows(items, node, depth, fuel).len(),
    ensures
        ({
            let row = subtree_rows(items, node, depth, fuel)[k];
            &&& at_depth(items, row.0, row.1)
            &&& row.1 >= depth
            &&& k > 0 ==> row.1 > depth
            &&& ancestor(items, row.0, (row.1 - depth) as nat) == Some(node)
        }),
    decreases fuel, 0nat, 0nat,
{
    if k > 0 {
        let kids = child_positions(items, node);
        lemma_children_one_level_down(items, node, depth);
        let m = lemma_row_origin(items, kids, depth + 1, (fuel - 1) as nat, k - 1);
        lemma_forest_members(items, node, items.len() as int, kids[m]);
        assert(kids.contains(kids[m]));
        let row = subtree_rows(items, node, depth, fuel)[k];
        assert(ancestor(items, row.0, (row.1 - depth - 1) as nat) == Some(kids[m]));
    }
}

/// The children of an item lie one level below it.
proof fn lemma_children_one_level_down(items: Seq<ItemView>, node: int, depth: nat)
    requires
        at_depth(items, node, depth),
    ensures
        forall|m: int|
            0 <= m < child_positions(items, node).len() ==> at_depth(
                items,
                #[trigger] child_positions(items, node)[m],
                depth + 1,
            ),
{
    let kids = child_positions(items, node);
    assert forall|m: int| 0 <= m < kids.len() implies at_depth(
        items,
        #[trigger] kids[m],
        depth + 1,
    ) by {
        assert(kids.contains(kids[m]));
        lemma_forest_members(items, node, items.len() as int, kids[m]);
    }
}

/// Where a row of several subtrees comes from: the subtree of one of the items
/// at their top.
proof fn lemma_row_origin(items: Seq<ItemView>, nodes: Seq<int>, depth: nat, fuel: nat, k: int)
    -> (m: int)
    requires
        forall|j: int| 0 <= j < nodes.len() ==> at_depth(items, #[trigger] nodes[j], depth),
        0 <= k < rows_of(items, nodes, depth, fuel).len(),
    ensures
        0 <= m < nodes.len(),
        ({
            let row = rows_of(items, nodes, depth, fuel)[k];
            &&& at_depth(items, row.0, row.1)
            &&& row.1 >= depth
            &&& ancestor(items, row.0, (row.1 - depth) as nat) == Some(nodes[m])
        }),
    decreases fuel, 1nat, nodes.len(),
{
    let init = nodes.drop_last();
    let head = rows_of(items, init, depth, fuel);
    if k < head.len() {
        assert forall|j: int| 0 <= j < init.len() implies at_depth(
            items,
            #[trigger] init[j],
            depth,
        ) by {
            assert(init[j] == nodes[j]);
        }
        let m = lemma_row_origin(items, init, depth, fuel, k);
        assert(init[m] == nodes[m]);
        m
    } else {
        lemma_subtree_row_origin(items, nodes.last(), depth, fuel, k - head.len());
        nodes.len() - 1
    }
}

/// No two rows of a subtree show the same item.
proof fn lemma_subtree_rows_distinct(
    items: Seq<ItemView>,
    node: int,
    depth: nat,
    fuel: nat,
    a: int,
    b: int,
)
    requires
        at_depth(items, node, depth),
        0 <= a < b < subtree_rows(items, node, depth, fuel).len(),
    ensures
        subtree_rows(items, node, depth, fuel)[a].0 != subtree_rows(items, node, depth, fuel)[b].0,
    decreases fuel, 0nat, 0nat,
{
    let rows = subtree_rows(items, node, depth, fuel);
    let kids = child_positions(items, node);
    lemma_children_one_level_down(items, node, depth);
    if a == 0 {
        lemma_subtree_row_origin(items, node, depth, fuel, b);
        if rows[b].0 == node {
            lemma_one_depth(items, node, depth, rows[b].1);
        }
    } else {
        assert forall|x: int, y: int| 0 <= x < y < kids.len() implies kids[x] != kids[y] by {
            lemma_forest_order(items, node, items.len() as int, x, y);
        }
        lemma_rows_distinct(items, kids, depth + 1, (fuel - 1) as nat, a - 1, b - 1);
    }
}

/// No two rows of the subtrees of distinct items of one depth show the same
/// item.
proof fn lemma_rows_distinct(
    items: Seq<ItemView>,
    nodes: Seq<int>,
    depth: nat,
    fuel: nat,
    a: int,
    b: int,
)
    requires
        forall|j: int| 0 <= j < nodes.len() ==> at_depth(items, #[trigger] nodes[j], depth),
        forall|x: int, y: int| 0 <= x < y < nodes.len() ==> nodes[x] != nodes[y],
        0 <= a < b < rows_of(items, nodes, depth, fuel).len(),
    ensures
        rows_of(items, nodes, depth, fuel)[a].0 != rows_of(items, nodes, depth, fuel)[b].0,
    decreases fuel, 1nat, nodes.len(),
{
    let rows = rows_of(items, nodes, depth, fuel);
    let init = nodes.drop_last();
    let head = rows_of(items, init, depth, fuel);
    assert forall|j: int| 0 <= j < init.len() implies at_depth(items, #[trigger] init[j], depth) by {
        assert(init[j] == nodes[j]);
    }
    assert forall|x: int, y: int| 0 <= x < y < init.len() implies init[x] != init[y] by {
        assert(init[x] == nodes[x] && init[y] == nodes[y]);
    }
    if b < head.len() {
        lemma_rows_distinct(items, init, depth, fuel, a, b);
    } else if a >= head.len() {
        lemma_subtree_rows_distinct(
            items,
            nodes.last(),
            depth,
            fuel,
            a - head.len(),
            b - head.len(),
        );
    } else {
        let m = lemma_row_origin(items, init, depth, fuel, a);
        lemma_subtree_row_origin(items, nodes.last(), depth, fuel, b - head.len());
        if rows[a].0 == rows[b].0 {
            lemma_one_depth(items, rows[a].0, rows[a].1, rows[b].1);
            assert(init[m] == nodes[m]);
            assert(nodes[m] == nodes[nodes.len() - 1]);
        }
    }
}

/// The tree view shows no item twice.
pub proof fn lemma_tree_shows_no_item_twice(items: Seq<ItemView>, a: int, b: int)
    requires
        0 <= a < b < tree_view(items).len(),
    ensures
        tree_view(items)[a].0 != tree_view(items)[b].0,
{
    let n = items.len() as int;
    let roots = root_positions(items);
    assert forall|j: int| 0 <= j < roots.len() implies at_depth(items, #[trigger] roots[j], 0) by {
        assert(roots.contains(roots[j]));
        lemma_forest_members(items, 0, n, roots[j]);
    }
    assert forall|x: int, y: int| 0 <= x < y < roots.len() implies roots[x] != roots[y] by {
        lemma_forest_order(items, 0, n, x, y);
    }
    lemma_rows_distinct(items, roots, 0, items.len(), a, b);
}

} // verus!
