//! The navigation tree over the notes of a vault.

use vstd::prelude::*;

use crate::text::{chars_le, chars_of, lex_le, lowercase, to_lowercase};
use crate::tree_laws::{
    deep_ordered, lemma_deep_sort_of_ordered_below, lemma_deep_sort_ordered,
    lemma_level_well_formed, lemma_tree_well_formed, valid_node,
};

verus! {

/// One item of the navigation tree.
#[derive(Debug, PartialEq, Eq)]
pub struct TreeNode {
    pub name: String,
    pub is_dir: bool,
    pub relpath: Option<String>,
    pub title: Option<String>,
    pub children: Option<Vec<TreeNode>>,
}

/// A tree node as a mathematical value.
pub struct NodeView {
    pub name: Seq<char>,
    pub is_dir: bool,
    pub relpath: Option<Seq<char>>,
    pub title: Option<Seq<char>>,
    pub children: Option<Seq<NodeView>>,
}

/// The nodes of a sequence, each by its view.
pub open spec fn forest_view(nodes: Seq<TreeNode>) -> Seq<NodeView>
    decreases nodes,
{
    if nodes.len() == 0 {
        Seq::empty()
    } else {
        forest_view(nodes.drop_last()).push(nodes.last().view())
    }
}

impl View for TreeNode {
    type V = NodeView;

    open spec fn view(&self) -> NodeView
        decreases self,
    {
        NodeView {
            name: self.name@,
            is_dir: self.is_dir,
            relpath: match self.relpath {
                Some(p) => Some(p@),
                None => None,
            },
            title: match self.title {
                Some(t) => Some(t@),
                None => None,
            },
            children: match self.children {
                Some(c) => Some(forest_view(c@)),
                None => None,
            },
        }
    }
}


/// `forest_view` goes node by node.
pub proof fn lemma_forest_view(nodes: Seq<TreeNode>)
    ensures
        forest_view(nodes).len() == nodes.len(),
        forall|i: int| 0 <= i < nodes.len() ==> #[trigger] forest_view(nodes)[i] == nodes[i]@,
    decreases nodes.len(),
{
    if nodes.len() > 0 {
        lemma_forest_view(nodes.drop_last());
        assert(forest_view(nodes) == forest_view(nodes.drop_last()).push(nodes.last()@));
    } else {
        assert(forest_view(nodes) == Seq::<NodeView>::empty());
    }
}

/// The order of the tree's levels: directories come before files, and
/// within each of the two groups the lower-case names ascend in dictionary
/// order.
pub open spec fn node_le(a: NodeView, b: NodeView) -> bool {
    if a.is_dir != b.is_dir {
        a.is_dir
    } else {
        lex_le(lowercase(a.name), lowercase(b.name))
    }
}

/// A level in which no node stands before one that the order puts first.
pub open spec fn ordered(level: Seq<NodeView>) -> bool {
    forall|i: int, j: int| 0 <= i < j < level.len() ==> node_le(#[trigger] level[i], #[trigger] level[j])
}

/// Puts a node into an ordered level: before the first node that it does not
/// come after.
pub open spec fn insert_node(x: NodeView, level: Seq<NodeView>) -> Seq<NodeView>
    decreases level.len(),
{
    if level.len() == 0 {
        seq![x]
    } else if node_le(x, level[0]) {
        seq![x] + level
    } else {
        seq![level[0]] + insert_node(x, level.drop_first())
    }
}

/// The level in order, nodes of equal rank kept in the order they came in.
pub open spec fn stable_sort(level: Seq<NodeView>) -> Seq<NodeView>
    decreases level.len(),
{
    if level.len() == 0 {
        level
    } else {
        insert_node(level[0], stable_sort(level.drop_first()))
    }
}

/// Compares two nodes in the order of the tree's levels.
pub fn node_precedes(a: &TreeNode, b: &TreeNode) -> (r: bool)
    ensures
        r == node_le(a@, b@),
{
    if a.is_dir != b.is_dir {
        a.is_dir
    } else {
        let la = to_lowercase(a.name.as_str());
        let lb = to_lowercase(b.name.as_str());
        let ca = chars_of(la.as_str());
        let cb = chars_of(lb.as_str());
        chars_le(&ca, &cb)
    }
}

/// Where `insert_node` puts a node: after the nodes that come strictly before
/// it and before the first one that does not.
pub proof fn lemma_insert_node_at(x: NodeView, level: Seq<NodeView>, p: int)
    requires
        0 <= p <= level.len(),
        forall|j: int| 0 <= j < p ==> !node_le(x, #[trigger] level[j]),
        p < level.len() ==> node_le(x, level[p]),
    ensures
        insert_node(x, level) == level.insert(p, x),
    decreases level.len(),
{
    if level.len() == 0 {
        assert(seq![x] =~= level.insert(p, x));
    } else if p == 0 {
        assert(seq![x] + level =~= level.insert(p, x));
    } else {
        let rest = level.drop_first();
        assert forall|j: int| 0 <= j < p - 1 implies !node_le(x, #[trigger] rest[j]) by {
            assert(rest[j] == level[j + 1]);
        }
        lemma_insert_node_at(x, rest, p - 1);
        assert(seq![level[0]] + rest.insert(p - 1, x) =~= level.insert(p, x));
    }
}

/// The place of a node in an ordered level.
fn insert_position(level: &Vec<TreeNode>, x: &TreeNode) -> (p: usize)
    ensures
        p <= level.len(),
        forall|j: int| 0 <= j < p ==> !node_le(x@, #[trigger] level@[j]@),
        p < level.len() ==> node_le(x@, level@[p as int]@),
{
    let mut p: usize = 0;
    while p < level.len()
        invariant
            p <= level.len(),
            forall|j: int| 0 <= j < p ==> !node_le(x@, #[trigger] level@[j]@),
        decreases level.len() - p,
    {
        if node_precedes(x, &level[p]) {
            return p;
        }
        p += 1;
    }
    p
}

/// Puts a node into an ordered level.
fn insert_sorted(level: &mut Vec<TreeNode>, x: TreeNode)
    ensures
        forest_view(final(level)@) == insert_node(x@, forest_view(old(level)@)),
{
    let p = insert_position(level, &x);
    proof {
        let before = forest_view(level@);
        lemma_forest_view(level@);
        lemma_insert_node_at(x@, before, p as int);
        lemma_forest_view(level@.insert(p as int, x));
        assert(forest_view(level@.insert(p as int, x)) =~= before.insert(p as int, x@));
    }
    level.insert(p, x);
}

/// A node with every level below it in order.
pub open spec fn sort_inside(node: NodeView) -> NodeView
    decreases node, 0nat,
{
    NodeView {
        name: node.name,
        is_dir: node.is_dir,
        relpath: node.relpath,
        title: node.title,
        children: match node.children {
            Some(c) => Some(deep_sort(c)),
            None => None,
        },
    }
}

/// The nodes of a level, each with every level below it in order.
pub open spec fn sort_each(level: Seq<NodeView>) -> Seq<NodeView>
    decreases level, 0nat,
{
    if level.len() == 0 {
        level
    } else {
        sort_each(level.drop_last()).push(sort_inside(level.last()))
    }
}

/// A level in order, and every level below it in order.
pub open spec fn deep_sort(level: Seq<NodeView>) -> Seq<NodeView>
    decreases level, 1nat,
{
    stable_sort(sort_each(level))
}

/// `sort_each` goes node by node.
pub proof fn lemma_sort_each(level: Seq<NodeView>)
    ensures
        sort_each(level).len() == level.len(),
        forall|i: int| 0 <= i < level.len() ==> #[trigger] sort_each(level)[i] == sort_inside(level[i]),
    decreases level.len(),
{
    if level.len() > 0 {
        lemma_sort_each(level.drop_last());
        assert(sort_each(level) == sort_each(level.drop_last()).push(sort_inside(level.last())));
    } else {
        assert(sort_each(level) == level);
    }
}

/// Sorts a level and every level below it.
fn sort_forest(nodes: Vec<TreeNode>) -> (sorted: Vec<TreeNode>)
    ensures
        forest_view(sorted@) == deep_sort(forest_view(nodes@)),
    decreases nodes,
{
    let ghost orig = nodes;
    let ghost all = forest_view(nodes@);
    let ghost inner = sort_each(all);
    let mut rest = nodes;
    let mut sorted: Vec<TreeNode> = Vec::new();
    proof {
        lemma_forest_view(orig@);
        lemma_sort_each(all);
        assert(inner.skip(inner.len() as int) =~= Seq::<NodeView>::empty());
        assert(rest@ =~= orig@.take(rest@.len() as int));
    }
    while rest.len() > 0
        invariant
            orig == nodes,
            rest@.len() <= orig@.len(),
            rest@ == orig@.take(rest@.len() as int),
            all == forest_view(orig@),
            inner == sort_each(all),
            inner.len() == all.len(),
            all.len() == orig@.len(),
            forest_view(sorted@) == stable_sort(inner.skip(rest@.len() as int)),
        decreases rest.len(),
    {
        let ghost k = rest@.len() as int;
        let x = rest.pop().unwrap();
        proof {
            assert(rest@ =~= orig@.take(k - 1));
            assert(x == orig@[k - 1]);
            lemma_forest_view(orig@);
            lemma_sort_each(all);
            assert(inner[k - 1] == sort_inside(all[k - 1]));
            assert(all[k - 1] == x@);
            assert(inner.skip(k - 1).drop_first() =~= inner.skip(k));
            assert(inner.skip(k - 1)[0] == inner[k - 1]);
        }
        let TreeNode { name, is_dir, relpath, title, children } = x;
        let children = match children {
            Some(c) => {
                proof {
                    assert(decreases_to!(orig => orig[k - 1]));
                    assert(decreases_to!(orig => c));
                }
                Some(sort_forest(c))
            },
            None => None,
        };
        let y = TreeNode { name, is_dir, relpath, title, children };
        assert(y@ == sort_inside(x@));
        insert_sorted(&mut sorted, y);
    }
    proof {
        assert(inner.skip(0) =~= inner);
    }
    sorted
}

/// Puts every level of a forest in order: directories before files, names
/// ascending without regard to case, nodes of equal rank in the order they
/// came in.
pub fn sort_nodes(nodes: &mut Vec<TreeNode>)
    ensures
        forest_view(final(nodes)@) == deep_sort(forest_view(old(nodes)@)),
        deep_ordered(forest_view(final(nodes)@)),
        final(nodes)@.len() == old(nodes)@.len(),
{
    let mut taken: Vec<TreeNode> = Vec::new();
    core::mem::swap(nodes, &mut taken);
    proof {
        lemma_deep_sort_ordered(forest_view(taken@));
        lemma_forest_view(taken@);
    }
    *nodes = sort_forest(taken);
    proof {
        lemma_forest_view(nodes@);
    }
}


/// What a directory listing says of one entry of the vault.
#[derive(Debug, PartialEq, Eq)]
pub enum FsEntry {
    /// A regular file, with the title that the storage layer found for it,
    /// if it found one.
    File { name: String, title: Option<String> },
    /// A directory, with its own entries in the order they were listed.
    Directory { name: String, children: Vec<FsEntry> },
    /// Anything else, a symbolic link included.
    Other { name: String },
}

/// A listed entry as a mathematical value.
pub enum EntryView {
    File { name: Seq<char>, title: Option<Seq<char>> },
    Directory { name: Seq<char>, children: Seq<EntryView> },
    Other { name: Seq<char> },
}

/// The entries of a listing, each by its view.
pub open spec fn listing_view(entries: Seq<FsEntry>) -> Seq<EntryView>
    decreases entries,
{
    if entries.len() == 0 {
        Seq::empty()
    } else {
        listing_view(entries.drop_last()).push(entries.last().view())
    }
}

impl View for FsEntry {
    type V = EntryView;

    open spec fn view(&self) -> EntryView
        decreases self,
    {
        match self {
            FsEntry::File { name, title } => EntryView::File {
                name: name@,
                title: match title {
                    Some(t) => Some(t@),
                    None => None,
                },
            },
            FsEntry::Directory { name, children } => EntryView::Directory {
                name: name@,
                children: listing_view(children@),
            },
            FsEntry::Other { name } => EntryView::Other { name: name@ },
        }
    }
}

/// `listing_view` goes entry by entry.
pub proof fn lemma_listing_view(entries: Seq<FsEntry>)
    ensures
        listing_view(entries).len() == entries.len(),
        forall|i: int| 0 <= i < entries.len() ==> #[trigger] listing_view(entries)[i] == entries[i]@,
    decreases entries.len(),
{
    if entries.len() > 0 {
        lemma_listing_view(entries.drop_last());
        assert(listing_view(entries) == listing_view(entries.drop_last()).push(entries.last()@));
    } else {
        assert(listing_view(entries) == Seq::<EntryView>::empty());
    }
}

/// The place of the last dot of a name, if it has one.
pub open spec fn last_dot(name: Seq<char>) -> Option<int>
    decreases name.len(),
{
    if name.len() == 0 {
        None
    } else if name.last() == '.' {
        Some(name.len() - 1)
    } else {
        last_dot(name.drop_last())
    }
}

/// The extension of a file name: what follows its last dot. A name without a
/// dot has none, nor has one whose only dot begins it, nor has the name of two
/// dots.
pub open spec fn extension(name: Seq<char>) -> Option<Seq<char>> {
    match last_dot(name) {
        Some(i) => if i == 0 || name == seq!['.', '.'] {
            None
        } else {
            Some(name.skip(i + 1))
        },
        None => None,
    }
}

/// Whether a file of this name is a markdown note: its extension, in lower
/// case, is `md` or `markdown`.
pub open spec fn is_markdown_name(name: Seq<char>) -> bool {
    match extension(name) {
        Some(e) => lowercase(e) == "md"@ || lowercase(e) == "markdown"@,
        None => false,
    }
}

/// Finds the last dot of a name.
fn find_last_dot(name: &Vec<char>) -> (r: Option<usize>)
    ensures
        match r {
            Some(i) => last_dot(name@) == Some(i as int) && i < name.len() && name@[i as int] == '.',
            None => last_dot(name@) is None,
        },
{
    let mut n: usize = name.len();
    proof {
        assert(name@.take(n as int) =~= name@);
    }
    while n > 0
        invariant
            n <= name.len(),
            last_dot(name@) == last_dot(name@.take(n as int)),
        decreases n,
    {
        proof {
            assert(name@.take(n as int).drop_last() =~= name@.take(n as int - 1));
        }
        if name[n - 1] == '.' {
            return Some(n - 1);
        }
        n -= 1;
    }
    None
}

/// Tells whether a file of this name is a markdown note.
pub fn is_markdown(name: &str) -> (r: bool)
    ensures
        r == is_markdown_name(name@),
{
    let chars = chars_of(name);
    match find_last_dot(&chars) {
        None => false,
        Some(i) => {
            if i == 0 || (chars.len() == 2 && chars[0] == '.') {
                proof {
                    if i != 0 {
                        assert(name@ =~= seq!['.', '.']);
                    }
                }
                false
            } else {
                proof {
                    if name@ == seq!['.', '.'] {
                        assert(seq!['.', '.'][0] == '.');
                    }
                }
                let ext = name.substring_char(i + 1, chars.len());
                assert(ext@ =~= name@.skip(i as int + 1));
                let low = to_lowercase(ext);
                let md = "md".to_owned();
                let markdown = "markdown".to_owned();
                low == md || low == markdown
            }
        },
    }
}

/// The path of an entry relative to the vault's root: the names from the
/// root down, with a slash between them.
pub open spec fn join_path_spec(prefix: Seq<char>, name: Seq<char>) -> Seq<char> {
    if prefix.len() == 0 {
        name
    } else {
        prefix + "/"@ + name
    }
}

/// Joins the relative path of a directory and the name of an entry in it.
pub fn join_path(prefix: &str, name: &str) -> (path: String)
    ensures
        path@ == join_path_spec(prefix@, name@),
{
    if prefix.is_empty() {
        name.to_owned()
    } else {
        let mut path = prefix.to_owned();
        path.append("/");
        path.append(name);
        path
    }
}

/// The node that an entry gives, if it gives one. A markdown file gives a
/// leaf with its relative path and its title, the empty title where none was
/// found. A directory gives a node over the nodes of its entries, in order,
/// unless they are none. Nothing else gives a node.
pub open spec fn node_of(entry: EntryView, prefix: Seq<char>) -> Option<NodeView>
    decreases entry, 0nat,
{
    match entry {
        EntryView::File { name, title } => if is_markdown_name(name) {
            Some(
                NodeView {
                    name: name,
                    is_dir: false,
                    relpath: Some(join_path_spec(prefix, name)),
                    title: Some(
                        match title {
                            Some(t) => t,
                            None => Seq::empty(),
                        },
                    ),
                    children: None,
                },
            )
        } else {
            None
        },
        EntryView::Directory { name, children } => {
            let below = kept_nodes(children, join_path_spec(prefix, name));
            if below.len() == 0 {
                None
            } else {
                Some(
                    NodeView {
                        name: name,
                        is_dir: true,
                        relpath: None,
                        title: None,
                        children: Some(stable_sort(below)),
                    },
                )
            }
        },
        EntryView::Other { name } => None,
    }
}

/// The nodes that the entries of one directory give, in the order of the
/// listing.
pub open spec fn kept_nodes(entries: Seq<EntryView>, prefix: Seq<char>) -> Seq<NodeView>
    decreases entries, 1nat,
{
    if entries.len() == 0 {
        Seq::empty()
    } else {
        let before = kept_nodes(entries.drop_last(), prefix);
        match node_of(entries.last(), prefix) {
            Some(n) => before.push(n),
            None => before,
        }
    }
}

/// The navigation tree of a vault whose root lists these entries.
pub open spec fn tree_of(entries: Seq<EntryView>) -> Seq<NodeView> {
    stable_sort(kept_nodes(entries, Seq::empty()))
}


/// Why no tree could be built.
#[derive(Clone, Debug, PartialEq, Eq)]
pub enum TreeError {
    /// The vault could not be read; the message is that of the failed read.
    IoFailure(String),
    /// The vault holds no markdown note at all.
    EmptyVault,
}

impl TreeError {
    /// The error in words, as it is shown to a client.
    pub open spec fn message_spec(self) -> Seq<char> {
        match self {
            TreeError::IoFailure(m) => m@,
            TreeError::EmptyVault => "Vault directory is empty"@,
        }
    }

    /// The error in words, as it is shown to a client.
    pub fn message(&self) -> (m: String)
        ensures
            m@ == self.message_spec(),
    {
        match self {
            TreeError::IoFailure(m) => m.clone(),
            TreeError::EmptyVault => "Vault directory is empty".to_owned(),
        }
    }
}

/// Builds the node of one listed entry, with every level below it in order;
/// `prefix` is the relative path of the directory that lists the entry, empty
/// for the vault's root.
pub fn build_tree_node(entry: &FsEntry, prefix: &str) -> (r: Option<TreeNode>)
    ensures
        match r {
            Some(n) => node_of(entry@, prefix@) == Some(n@),
            None => node_of(entry@, prefix@) is None,
        },
    decreases entry,
{
    match entry {
        FsEntry::File { name, title } => {
            if is_markdown(name.as_str()) {
                let shown = match title {
                    Some(t) => t.clone(),
                    None => String::new(),
                };
                Some(
                    TreeNode {
                        name: name.clone(),
                        is_dir: false,
                        relpath: Some(join_path(prefix, name.as_str())),
                        title: Some(shown),
                        children: None,
                    },
                )
            } else {
                None
            }
        },
        FsEntry::Directory { name, children } => {
            let path = join_path(prefix, name.as_str());
            let below = build_level(children, path.as_str());
            if below.len() == 0 {
                proof {
                    lemma_forest_view(below@);
                }
                None
            } else {
                let mut below = below;
                proof {
                    lemma_forest_view(below@);
                    lemma_level_well_formed(listing_view(children@), path@);
                    lemma_deep_sort_of_ordered_below(forest_view(below@));
                }
                sort_nodes(&mut below);
                Some(
                    TreeNode {
                        name: name.clone(),
                        is_dir: true,
                        relpath: None,
                        title: None,
                        children: Some(below),
                    },
                )
            }
        },
        FsEntry::Other { name } => None,
    }
}

/// Builds the nodes of the entries of one directory, in the order of the
/// listing.
fn build_level(entries: &Vec<FsEntry>, prefix: &str) -> (nodes: Vec<TreeNode>)
    ensures
        forest_view(nodes@) == kept_nodes(listing_view(entries@), prefix@),
    decreases entries,
{
    let ghost all = listing_view(entries@);
    let mut nodes: Vec<TreeNode> = Vec::new();
    let mut i: usize = 0;
    proof {
        lemma_listing_view(entries@);
        assert(forest_view(nodes@) =~= Seq::<NodeView>::empty());
        assert(all.take(0) =~= Seq::<EntryView>::empty());
    }
    while i < entries.len()
        invariant
            i <= entries.len(),
            all == listing_view(entries@),
            all.len() == entries@.len(),
            forest_view(nodes@) == kept_nodes(all.take(i as int), prefix@),
        decreases entries.len() - i,
    {
        proof {
            lemma_listing_view(entries@);
            assert(all.take(i as int + 1).drop_last() =~= all.take(i as int));
            assert(all.take(i as int + 1).last() == entries@[i as int]@);
            assert(decreases_to!(entries => entries[i as int]));
        }
        let ghost before = nodes@;
        match build_tree_node(&entries[i], prefix) {
            Some(n) => {
                nodes.push(n);
                proof {
                    lemma_forest_view(before);
                    lemma_forest_view(nodes@);
                    assert(forest_view(nodes@) =~= forest_view(before).push(n@));
                }
            },
            None => {},
        }
        i += 1;
    }
    proof {
        assert(all.take(i as int) =~= all);
    }
    nodes
}

/// Builds the navigation tree of a vault from the listing of its root, or
/// from the failure to list it. The root itself is no node. A listing that
/// could not be read gives `IoFailure` with the message of the read; a vault
/// without any markdown note gives `EmptyVault`.
pub fn build_file_tree(listing: Result<Vec<FsEntry>, String>) -> (r: Result<Vec<TreeNode>, TreeError>)
    ensures
        match listing {
            Err(m) => r matches Err(TreeError::IoFailure(e)) && e@ == m@,
            Ok(entries) => {
                let tree = tree_of(listing_view(entries@));
                if tree.len() == 0 {
                    r matches Err(TreeError::EmptyVault)
                } else {
                    r matches Ok(nodes) && forest_view(nodes@) == tree
                }
            },
        },
        r matches Ok(nodes) ==> nodes@.len() > 0 && deep_ordered(forest_view(nodes@)) && forall|i: int|
            0 <= i < nodes@.len() ==> valid_node(#[trigger] forest_view(nodes@)[i]),
{
    match listing {
        Err(m) => Err(TreeError::IoFailure(m)),
        Ok(entries) => {
            let mut nodes = build_level(&entries, "");
            proof {
                assert(""@ =~= Seq::<char>::empty()) by {
                    reveal_strlit("");
                }
                lemma_level_well_formed(listing_view(entries@), Seq::empty());
                lemma_deep_sort_of_ordered_below(forest_view(nodes@));
                lemma_tree_well_formed(listing_view(entries@));
            }
            sort_nodes(&mut nodes);
            proof {
                lemma_forest_view(nodes@);
            }
            if nodes.len() == 0 {
                Err(TreeError::EmptyVault)
            } else {
                Ok(nodes)
            }
        },
    }
}

} // verus!
