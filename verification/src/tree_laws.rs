//! What holds of every tree that the builder gives, and of the order of its
//! levels.

use vstd::prelude::*;

use crate::text::{lemma_lex_le_total, lemma_lex_le_transitive, lowercase};
use crate::tree::{
    deep_sort, insert_node, is_markdown_name, kept_nodes, lemma_insert_node_at, lemma_sort_each,
    node_le, node_of, ordered, sort_each, sort_inside, stable_sort, tree_of, EntryView, NodeView,
};

verus! {

/// Of two nodes, one is at most the other.
pub proof fn lemma_node_le_total(a: NodeView, b: NodeView)
    ensures
        node_le(a, b) || node_le(b, a),
{
    lemma_lex_le_total(lowercase(a.name), lowercase(b.name));
}

/// The order of a level is transitive.
pub proof fn lemma_node_le_transitive(a: NodeView, b: NodeView, c: NodeView)
    requires
        node_le(a, b),
        node_le(b, c),
    ensures
        node_le(a, c),
{
    if a.is_dir == b.is_dir && b.is_dir == c.is_dir {
        lemma_lex_le_transitive(lowercase(a.name), lowercase(b.name), lowercase(c.name));
    }
}

/// The number of nodes of a level that come strictly before a given node,
/// counted from the front up to the first that does not.
pub open spec fn insert_index(x: NodeView, level: Seq<NodeView>) -> int
    decreases level.len(),
{
    if level.len() == 0 || node_le(x, level[0]) {
        0
    } else {
        1 + insert_index(x, level.drop_first())
    }
}

/// `insert_node` puts the node at `insert_index` and moves nothing else.
pub proof fn lemma_insert_index(x: NodeView, level: Seq<NodeView>)
    ensures
        0 <= insert_index(x, level) <= level.len(),
        forall|j: int| 0 <= j < insert_index(x, level) ==> !node_le(x, #[trigger] level[j]),
        insert_index(x, level) < level.len() ==> node_le(x, level[insert_index(x, level)]),
        insert_node(x, level) == level.insert(insert_index(x, level), x),
    decreases level.len(),
{
    let p = insert_index(x, level);
    if level.len() != 0 && !node_le(x, level[0]) {
        let rest = level.drop_first();
        lemma_insert_index(x, rest);
        assert forall|j: int| 0 <= j < p implies !node_le(x, #[trigger] level[j]) by {
            if j > 0 {
                assert(level[j] == rest[j - 1]);
            }
        }
        if p < level.len() {
            assert(level[p] == rest[p - 1]);
        }
    }
    lemma_insert_node_at(x, level, p);
}

/// Putting a node into an ordered level leaves the level ordered.
pub proof fn lemma_insert_keeps_order(x: NodeView, level: Seq<NodeView>)
    requires
        ordered(level),
    ensures
        ordered(insert_node(x, level)),
{
    let p = insert_index(x, level);
    lemma_insert_index(x, level);
    let r = level.insert(p, x);
    assert forall|i: int, j: int| 0 <= i < j < r.len() implies node_le(
        #[trigger] r[i],
        #[trigger] r[j],
    ) by {
        if j < p {
            assert(r[i] == level[i] && r[j] == level[j]);
        } else if j == p {
            assert(r[j] == x && r[i] == level[i]);
            lemma_node_le_total(x, level[i]);
        } else {
            assert(r[j] == level[j - 1]);
            if i < p {
                assert(r[i] == level[i]);
            } else if i == p {
                assert(r[i] == x);
                if j - 1 > p {
                    assert(node_le(level[p], level[j - 1]));
                    lemma_node_le_transitive(x, level[p], level[j - 1]);
                }
            } else {
                assert(r[i] == level[i - 1]);
            }
        }
    }
}

/// A sorted level is in order, and holds the nodes it was given, each as
/// often as it was given.
pub proof fn lemma_stable_sort_ordered(level: Seq<NodeView>)
    ensures
        ordered(stable_sort(level)),
        stable_sort(level).len() == level.len(),
        stable_sort(level).to_multiset() == level.to_multiset(),
    decreases level.len(),
{
    broadcast use vstd::seq_lib::to_multiset_insert;

    if level.len() > 0 {
        let rest = level.drop_first();
        let sorted = stable_sort(rest);
        lemma_stable_sort_ordered(rest);
        lemma_insert_keeps_order(level[0], sorted);
        lemma_insert_index(level[0], sorted);
        let p = insert_index(level[0], sorted);
        assert(sorted.insert(p, level[0]).to_multiset() == sorted.to_multiset().insert(level[0]));
        assert(level =~= rest.insert(0, level[0]));
        assert(rest.insert(0, level[0]).to_multiset() == rest.to_multiset().insert(level[0]));
    }
}

/// Every node of a sorted level is a node of the level that was given.
pub proof fn lemma_stable_sort_members(level: Seq<NodeView>, i: int)
    requires
        0 <= i < level.len(),
    ensures
        stable_sort(level).len() == level.len(),
        level.contains(stable_sort(level)[i]),
        stable_sort(level).contains(level[i]),
{
    lemma_stable_sort_ordered(level);
    let sorted = stable_sort(level);
    assert(sorted.contains(sorted[i]));
    assert(level.contains(level[i]));
    vstd::seq_lib::to_multiset_contains(sorted, sorted[i]);
    vstd::seq_lib::to_multiset_contains(level, sorted[i]);
    vstd::seq_lib::to_multiset_contains(sorted, level[i]);
    vstd::seq_lib::to_multiset_contains(level, level[i]);
}

/// Two nodes that the order does not tell apart.
pub open spec fn same_rank(a: NodeView, b: NodeView) -> bool {
    node_le(a, b) && node_le(b, a)
}

/// The nodes of a level that have the rank of `k`, in the order of the level.
pub open spec fn of_rank(level: Seq<NodeView>, k: NodeView) -> Seq<NodeView>
    decreases level.len(),
{
    if level.len() == 0 {
        level
    } else if same_rank(level[0], k) {
        seq![level[0]] + of_rank(level.drop_first(), k)
    } else {
        of_rank(level.drop_first(), k)
    }
}

/// A node put into a level comes before the nodes of its own rank and leaves
/// the order of the others among themselves as it was.
pub proof fn lemma_insert_keeps_ranks(x: NodeView, level: Seq<NodeView>, k: NodeView)
    ensures
        of_rank(insert_node(x, level), k) == if same_rank(x, k) {
            seq![x] + of_rank(level, k)
        } else {
            of_rank(level, k)
        },
    decreases level.len(),
{
    if level.len() == 0 {
        assert(seq![x].drop_first() =~= level);
    } else if node_le(x, level[0]) {
        assert((seq![x] + level).drop_first() =~= level);
    } else {
        let rest = level.drop_first();
        let placed = insert_node(x, rest);
        lemma_insert_keeps_ranks(x, rest, k);
        assert((seq![level[0]] + placed).drop_first() =~= placed);
        if same_rank(x, k) && same_rank(level[0], k) {
            lemma_node_le_transitive(x, k, level[0]);
        }
    }
}

/// Sorting is stable: the nodes of one rank come out in the order in which
/// they went in.
pub proof fn lemma_stable_sort_keeps_ranks(level: Seq<NodeView>, k: NodeView)
    ensures
        of_rank(stable_sort(level), k) == of_rank(level, k),
    decreases level.len(),
{
    if level.len() > 0 {
        lemma_stable_sort_keeps_ranks(level.drop_first(), k);
        lemma_insert_keeps_ranks(level[0], stable_sort(level.drop_first()), k);
    }
}

/// Sorting a level that is in order changes nothing.
pub proof fn lemma_stable_sort_fixes_ordered(level: Seq<NodeView>)
    requires
        ordered(level),
    ensures
        stable_sort(level) == level,
    decreases level.len(),
{
    if level.len() > 0 {
        let rest = level.drop_first();
        assert forall|i: int, j: int| 0 <= i < j < rest.len() implies node_le(
            #[trigger] rest[i],
            #[trigger] rest[j],
        ) by {
            assert(rest[i] == level[i + 1] && rest[j] == level[j + 1]);
        }
        lemma_stable_sort_fixes_ordered(rest);
        if rest.len() > 0 {
            assert(rest[0] == level[1]);
            assert(node_le(level[0], level[1]));
        }
        lemma_insert_node_at(level[0], rest, 0);
        assert(rest.insert(0, level[0]) =~= level);
    }
}


/// A forest in which every level is in order, from the top down.
pub open spec fn deep_ordered(level: Seq<NodeView>) -> bool
    decreases level,
{
    ordered(level) && forall|i: int| 0 <= i < level.len() ==> inner_ordered(#[trigger] level[i])
}

/// A node below which every level is in order.
pub open spec fn inner_ordered(node: NodeView) -> bool
    decreases node,
{
    match node.children {
        Some(c) => deep_ordered(c),
        None => true,
    }
}

/// The shape of a node of the tree. A directory has children, at least one,
/// and neither path nor title; a file has a path and a title, no children,
/// and the name of a markdown note. The same holds of every node below.
pub open spec fn valid_node(node: NodeView) -> bool
    decreases node,
{
    match node.children {
        Some(c) => node.is_dir && node.relpath is None && node.title is None && c.len() > 0
            && forall|i: int| 0 <= i < c.len() ==> valid_node(#[trigger] c[i]),
        None => !node.is_dir && node.relpath is Some && node.title is Some && is_markdown_name(
            node.name,
        ),
    }
}

/// Whether an entry is a markdown file or has one anywhere below it.
pub open spec fn has_markdown(entry: EntryView) -> bool
    decreases entry,
{
    match entry {
        EntryView::File { name, title } => is_markdown_name(name),
        EntryView::Directory { name, children } => exists|i: int|
            0 <= i < children.len() && has_markdown(#[trigger] children[i]),
        EntryView::Other { name } => false,
    }
}

/// The nodes of a level are the nodes that its entries give, and no others.
pub proof fn lemma_kept_nodes_members(entries: Seq<EntryView>, prefix: Seq<char>, n: NodeView)
    ensures
        kept_nodes(entries, prefix).contains(n) <==> exists|j: int|
            0 <= j < entries.len() && node_of(#[trigger] entries[j], prefix) == Some(n),
    decreases entries.len(),
{
    let kept = kept_nodes(entries, prefix);
    if entries.len() == 0 {
        assert(kept =~= Seq::<NodeView>::empty());
        assert(!kept.contains(n));
    } else {
        let init = entries.drop_last();
        let before = kept_nodes(init, prefix);
        lemma_kept_nodes_members(init, prefix, n);
        let last = node_of(entries.last(), prefix);
        if kept.contains(n) {
            let i = choose|i: int| 0 <= i < kept.len() && kept[i] == n;
            if i < before.len() {
                assert(before[i] == n);
                assert(before.contains(n));
                let j = choose|j: int| 0 <= j < init.len() && node_of(#[trigger] init[j], prefix) == Some(n);
                assert(entries[j] == init[j]);
            } else {
                assert(last == Some(n));
                assert(entries[entries.len() - 1] == entries.last());
            }
        }
        if exists|j: int| 0 <= j < entries.len() && node_of(#[trigger] entries[j], prefix) == Some(n) {
            let j = choose|j: int| 0 <= j < entries.len() && node_of(#[trigger] entries[j], prefix) == Some(n);
            if j < init.len() {
                assert(init[j] == entries[j]);
                assert(before.contains(n));
                let i = choose|i: int| 0 <= i < before.len() && before[i] == n;
                assert(kept[i] == n);
            } else {
                assert(kept[kept.len() - 1] == n);
            }
        }
    }
}

/// An entry gives a node exactly when it is a markdown file or has one
/// below it: a directory is kept exactly when a markdown file lies somewhere
/// beneath it.
pub proof fn lemma_node_iff_markdown(entry: EntryView, prefix: Seq<char>)
    ensures
        node_of(entry, prefix) is Some <==> has_markdown(entry),
    decreases entry, 0nat,
{
    match entry {
        EntryView::Directory { name, children } => {
            lemma_level_iff_markdown(children, crate::tree::join_path_spec(prefix, name));
        },
        _ => {},
    }
}

/// A directory's entries give at least one node exactly when one of them is a
/// markdown file or has one below it.
pub proof fn lemma_level_iff_markdown(entries: Seq<EntryView>, prefix: Seq<char>)
    ensures
        kept_nodes(entries, prefix).len() > 0 <==> exists|j: int|
            0 <= j < entries.len() && has_markdown(#[trigger] entries[j]),
    decreases entries, 1nat,
{
    let kept = kept_nodes(entries, prefix);
    if entries.len() > 0 {
        assert forall|j: int| 0 <= j < entries.len() implies (node_of(
            #[trigger] entries[j],
            prefix,
        ) is Some <==> has_markdown(entries[j])) by {
            lemma_node_iff_markdown(entries[j], prefix);
        }
        if kept.len() > 0 {
            assert(kept.contains(kept[0]));
            lemma_kept_nodes_members(entries, prefix, kept[0]);
        }
        if exists|j: int| 0 <= j < entries.len() && has_markdown(#[trigger] entries[j]) {
            let j = choose|j: int| 0 <= j < entries.len() && has_markdown(#[trigger] entries[j]);
            let n = node_of(entries[j], prefix)->0;
            lemma_kept_nodes_members(entries, prefix, n);
        }
    }
}

/// The node that an entry gives has the shape of a tree node, and every
/// level below it is in order.
pub proof fn lemma_node_well_formed(entry: EntryView, prefix: Seq<char>)
    ensures
        node_of(entry, prefix) matches Some(n) ==> valid_node(n) && inner_ordered(n),
    decreases entry, 0nat,
{
    match entry {
        EntryView::Directory { name, children } => {
            let path = crate::tree::join_path_spec(prefix, name);
            let below = kept_nodes(children, path);
            if below.len() > 0 {
                lemma_level_well_formed(children, path);
                lemma_sorted_level_well_formed(below);
            }
        },
        _ => {},
    }
}

/// The nodes that a directory's entries give have the shape of tree nodes,
/// and every level below each of them is in order.
pub proof fn lemma_level_well_formed(entries: Seq<EntryView>, prefix: Seq<char>)
    ensures
        forall|i: int|
            0 <= i < kept_nodes(entries, prefix).len() ==> valid_node(
                #[trigger] kept_nodes(entries, prefix)[i],
            ) && inner_ordered(kept_nodes(entries, prefix)[i]),
    decreases entries, 1nat,
{
    let kept = kept_nodes(entries, prefix);
    assert forall|i: int| 0 <= i < kept.len() implies valid_node(#[trigger] kept[i])
        && inner_ordered(kept[i]) by {
        assert(kept.contains(kept[i]));
        lemma_kept_nodes_members(entries, prefix, kept[i]);
        let j = choose|j: int| 0 <= j < entries.len() && node_of(#[trigger] entries[j], prefix) == Some(kept[i]);
        lemma_node_well_formed(entries[j], prefix);
    }
}

/// Sorting a level of well-formed nodes gives a forest that is in order from
/// the top down, of well-formed nodes.
pub proof fn lemma_sorted_level_well_formed(level: Seq<NodeView>)
    requires
        forall|i: int| 0 <= i < level.len() ==> valid_node(#[trigger] level[i]) && inner_ordered(level[i]),
    ensures
        deep_ordered(stable_sort(level)),
        stable_sort(level).len() == level.len(),
        forall|i: int| 0 <= i < level.len() ==> valid_node(#[trigger] stable_sort(level)[i]),
{
    let sorted = stable_sort(level);
    lemma_stable_sort_ordered(level);
    assert forall|i: int| 0 <= i < sorted.len() implies valid_node(#[trigger] sorted[i])
        && inner_ordered(sorted[i]) by {
        lemma_stable_sort_members(level, i);
        let j = choose|j: int| 0 <= j < level.len() && level[j] == sorted[i];
        assert(valid_node(level[j]));
    }
}

/// Every level of a built tree is in order: directories stand before files,
/// and within each of the two groups the names ascend without regard to case.
/// Every node of it has the shape of a tree node.
pub proof fn lemma_tree_well_formed(entries: Seq<EntryView>)
    ensures
        deep_ordered(tree_of(entries)),
        forall|i: int| 0 <= i < tree_of(entries).len() ==> valid_node(#[trigger] tree_of(entries)[i]),
{
    let kept = kept_nodes(entries, Seq::empty());
    lemma_level_well_formed(entries, Seq::empty());
    lemma_sorted_level_well_formed(kept);
}

/// A listed entry of the vault's root stands in the built tree, as the node
/// it gives, exactly when it is a markdown file or has one below it. So a
/// directory appears exactly when a markdown file lies somewhere beneath it.
pub proof fn lemma_entry_in_tree_iff_markdown(entries: Seq<EntryView>, j: int)
    requires
        0 <= j < entries.len(),
    ensures
        has_markdown(entries[j]) <==> (node_of(entries[j], Seq::empty()) matches Some(n)
            && tree_of(entries).contains(n)),
{
    let prefix = Seq::<char>::empty();
    let kept = kept_nodes(entries, prefix);
    lemma_node_iff_markdown(entries[j], prefix);
    if node_of(entries[j], prefix) is Some {
        let n = node_of(entries[j], prefix)->0;
        lemma_kept_nodes_members(entries, prefix, n);
        let i = choose|i: int| 0 <= i < kept.len() && kept[i] == n;
        lemma_stable_sort_members(kept, i);
    }
}

/// Every node of the built tree comes from a listed entry of the root.
pub proof fn lemma_tree_node_from_entry(entries: Seq<EntryView>, i: int)
    requires
        0 <= i < tree_of(entries).len(),
    ensures
        exists|j: int|
            0 <= j < entries.len() && has_markdown(#[trigger] entries[j]) && node_of(
                entries[j],
                Seq::empty(),
            ) == Some(tree_of(entries)[i]),
{
    let prefix = Seq::<char>::empty();
    let kept = kept_nodes(entries, prefix);
    lemma_stable_sort_ordered(kept);
    lemma_stable_sort_members(kept, i);
    let n = tree_of(entries)[i];
    lemma_kept_nodes_members(entries, prefix, n);
    let j = choose|j: int| 0 <= j < entries.len() && node_of(#[trigger] entries[j], prefix) == Some(n);
    lemma_node_iff_markdown(entries[j], prefix);
}


/// A node whose levels below were sorted has every level below it in order.
pub proof fn lemma_sort_inside_ordered(node: NodeView)
    ensures
        inner_ordered(sort_inside(node)),
    decreases node, 0nat,
{
    match node.children {
        Some(c) => {
            lemma_deep_sort_ordered(c);
        },
        None => {},
    }
}

/// A forest sorted at every level is in order from the top down, and holds as
/// many nodes at its top as before.
pub proof fn lemma_deep_sort_ordered(level: Seq<NodeView>)
    ensures
        deep_ordered(deep_sort(level)),
        deep_sort(level).len() == level.len(),
    decreases level, 1nat,
{
    let inner = sort_each(level);
    let sorted = stable_sort(inner);
    lemma_sort_each(level);
    lemma_stable_sort_ordered(inner);
    assert forall|i: int| 0 <= i < sorted.len() implies inner_ordered(#[trigger] sorted[i]) by {
        lemma_stable_sort_members(inner, i);
        let j = choose|j: int| 0 <= j < inner.len() && inner[j] == sorted[i];
        assert(inner[j] == sort_inside(level[j]));
        lemma_sort_inside_ordered(level[j]);
    }
}


/// Sorting below a node whose levels are in order changes nothing.
pub proof fn lemma_sort_inside_fixes_ordered(node: NodeView)
    requires
        inner_ordered(node),
    ensures
        sort_inside(node) == node,
    decreases node, 0nat,
{
    match node.children {
        Some(c) => {
            lemma_deep_sort_fixes_ordered(c);
        },
        None => {},
    }
}

/// Sorting a forest that is in order from the top down changes nothing.
pub proof fn lemma_deep_sort_fixes_ordered(level: Seq<NodeView>)
    requires
        deep_ordered(level),
    ensures
        deep_sort(level) == level,
    decreases level, 1nat,
{
    lemma_sort_each(level);
    assert forall|i: int| 0 <= i < level.len() implies sort_each(level)[i] == level[i] by {
        assert(inner_ordered(level[i]));
        lemma_sort_inside_fixes_ordered(level[i]);
    }
    assert(sort_each(level) =~= level);
    lemma_stable_sort_fixes_ordered(level);
}

/// Where every level below the nodes of a level is in order already, sorting
/// the level and all below it is sorting the level alone.
pub proof fn lemma_deep_sort_of_ordered_below(level: Seq<NodeView>)
    requires
        forall|i: int| 0 <= i < level.len() ==> inner_ordered(#[trigger] level[i]),
    ensures
        deep_sort(level) == stable_sort(level),
{
    lemma_sort_each(level);
    assert forall|i: int| 0 <= i < level.len() implies sort_each(level)[i] == level[i] by {
        assert(inner_ordered(level[i]));
        lemma_sort_inside_fixes_ordered(level[i]);
    }
    assert(sort_each(level) =~= level);
}

/// A built tree is sorted for good: sorting every level of it once more
/// gives the same tree.
pub proof fn lemma_tree_sorted_for_good(entries: Seq<EntryView>)
    ensures
        deep_sort(tree_of(entries)) == tree_of(entries),
{
    lemma_tree_well_formed(entries);
    lemma_deep_sort_fixes_ordered(tree_of(entries));
}

} // verus!
