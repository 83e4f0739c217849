use notemancy_server::reply::{hello, internal_error, notes_tree, Failure};
use notemancy_server::tree::{
    build_file_tree, build_tree_node, is_markdown, join_path, node_precedes, sort_nodes, FsEntry,
    TreeError, TreeNode,
};

fn file(name: &str, title: Option<&str>) -> FsEntry {
    FsEntry::File { name: name.to_string(), title: title.map(|t| t.to_string()) }
}

fn dir(name: &str, children: Vec<FsEntry>) -> FsEntry {
    FsEntry::Directory { name: name.to_string(), children }
}

fn other(name: &str) -> FsEntry {
    FsEntry::Other { name: name.to_string() }
}

fn leaf(name: &str, relpath: &str, title: &str) -> TreeNode {
    TreeNode {
        name: name.to_string(),
        is_dir: false,
        relpath: Some(relpath.to_string()),
        title: Some(title.to_string()),
        children: None,
    }
}

fn branch(name: &str, children: Vec<TreeNode>) -> TreeNode {
    TreeNode {
        name: name.to_string(),
        is_dir: true,
        relpath: None,
        title: None,
        children: Some(children),
    }
}

fn names(nodes: &[TreeNode]) -> Vec<String> {
    nodes.iter().map(|n| n.name.clone()).collect()
}

#[test]
fn markdown_names_are_recognised_whatever_their_case() {
    assert!(is_markdown("a.md"));
    assert!(is_markdown("A.MD"));
    assert!(is_markdown("notes.Markdown"));
    assert!(is_markdown("archive.tar.md"));
    assert!(is_markdown("x.MARKDOWN"));
}

#[test]
fn other_names_are_not_markdown() {
    assert!(!is_markdown("a.txt"));
    assert!(!is_markdown("md"));
    assert!(!is_markdown("README"));
    assert!(!is_markdown(".md"));
    assert!(!is_markdown(".markdown"));
    assert!(!is_markdown("a.md.bak"));
    assert!(!is_markdown("a."));
    assert!(!is_markdown(".."));
    assert!(!is_markdown(""));
    assert!(!is_markdown("a.mdx"));
}

#[test]
fn the_kelvin_sign_folds_to_the_letter_k() {
    assert!(is_markdown("x.MAR\u{212A}DOWN"));
}

#[test]
fn a_hidden_markdown_file_with_an_extension_counts() {
    assert!(is_markdown(".hidden.md"));
}

#[test]
fn paths_are_joined_with_a_slash() {
    assert_eq!(join_path("", "a.md"), "a.md");
    assert_eq!(join_path("docs", "a.md"), "docs/a.md");
    assert_eq!(join_path("docs/deep", "n.md"), "docs/deep/n.md");
}

#[test]
fn a_listing_that_could_not_be_read_is_an_io_failure() {
    let r = build_file_tree(Err("permission denied".to_string()));
    assert_eq!(r, Err(TreeError::IoFailure("permission denied".to_string())));
}

#[test]
fn an_empty_vault_is_an_error() {
    assert_eq!(build_file_tree(Ok(vec![])), Err(TreeError::EmptyVault));
}

#[test]
fn a_vault_without_markdown_is_an_error() {
    let listing = vec![
        file("readme.txt", None),
        dir("assets", vec![file("img.png", None), dir("raw", vec![])]),
        other("link"),
    ];
    assert_eq!(build_file_tree(Ok(listing)), Err(TreeError::EmptyVault));
}

#[test]
fn the_tree_is_pruned_and_ordered() {
    let listing = vec![
        file("zeta.md", Some("Zeta")),
        dir(
            "Docs",
            vec![
                file("b.MD", None),
                file("A.md", Some("A")),
                file("notes.txt", Some("ignored")),
                dir("empty", vec![file("x.txt", None)]),
                dir("deep", vec![file("n.markdown", Some("N"))]),
            ],
        ),
        other("link.md"),
        file("Alpha.md", Some("Alpha")),
        dir("assets", vec![file("img.png", None)]),
        file("readme.txt", None),
    ];
    let expected = vec![
        branch(
            "Docs",
            vec![
                branch("deep", vec![leaf("n.markdown", "Docs/deep/n.markdown", "N")]),
                leaf("A.md", "Docs/A.md", "A"),
                leaf("b.MD", "Docs/b.MD", ""),
            ],
        ),
        leaf("Alpha.md", "Alpha.md", "Alpha"),
        leaf("zeta.md", "zeta.md", "Zeta"),
    ];
    assert_eq!(build_file_tree(Ok(listing)), Ok(expected));
}

#[test]
fn a_directory_is_kept_for_a_note_deep_below_it() {
    let listing = vec![dir("a", vec![dir("b", vec![dir("c", vec![file("n.md", None)])])])];
    let expected = vec![branch(
        "a",
        vec![branch("b", vec![branch("c", vec![leaf("n.md", "a/b/c/n.md", "")])])],
    )];
    assert_eq!(build_file_tree(Ok(listing)), Ok(expected));
}

#[test]
fn a_directory_of_empty_directories_is_pruned() {
    let listing = vec![
        dir("a", vec![dir("b", vec![dir("c", vec![file("n.txt", None)])])]),
        file("keep.md", None),
    ];
    assert_eq!(build_file_tree(Ok(listing)), Ok(vec![leaf("keep.md", "keep.md", "")]));
}

#[test]
fn directories_stand_before_files() {
    let listing = vec![
        file("a.md", None),
        dir("z", vec![file("n.md", None)]),
        file("b.md", None),
        dir("m", vec![file("n.md", None)]),
    ];
    let tree = build_file_tree(Ok(listing)).unwrap();
    assert_eq!(names(&tree), vec!["m", "z", "a.md", "b.md"]);
    assert_eq!(tree.iter().map(|n| n.is_dir).collect::<Vec<bool>>(), vec![true, true, false, false]);
}

#[test]
fn names_are_ordered_without_regard_to_case() {
    let listing = vec![
        file("banana.md", None),
        file("Cherry.md", None),
        file("apple.md", None),
        file("Banana2.md", None),
        file("a10.md", None),
        file("a2.md", None),
    ];
    let tree = build_file_tree(Ok(listing)).unwrap();
    assert_eq!(
        names(&tree),
        vec!["a10.md", "a2.md", "apple.md", "banana.md", "Banana2.md", "Cherry.md"]
    );
}

#[test]
fn names_of_equal_rank_keep_the_order_of_the_listing() {
    let first = vec![file("note.md", Some("one")), file("NOTE.md", Some("two"))];
    let tree = build_file_tree(Ok(first)).unwrap();
    assert_eq!(names(&tree), vec!["note.md", "NOTE.md"]);
    let second = vec![file("NOTE.md", Some("two")), file("note.md", Some("one"))];
    let tree = build_file_tree(Ok(second)).unwrap();
    assert_eq!(names(&tree), vec!["NOTE.md", "note.md"]);
}

#[test]
fn a_single_entry_gives_its_node() {
    assert_eq!(
        build_tree_node(&file("n.md", Some("T")), "dir"),
        Some(leaf("n.md", "dir/n.md", "T"))
    );
    assert_eq!(build_tree_node(&file("n.txt", Some("T")), "dir"), None);
    assert_eq!(build_tree_node(&other("n.md"), ""), None);
    assert_eq!(build_tree_node(&dir("d", vec![]), ""), None);
    assert_eq!(
        build_tree_node(&dir("d", vec![file("b.md", None), file("a.md", None)]), "top"),
        Some(branch(
            "d",
            vec![leaf("a.md", "top/d/a.md", ""), leaf("b.md", "top/d/b.md", "")]
        ))
    );
}

#[test]
fn sort_nodes_orders_every_level() {
    let mut nodes = vec![
        leaf("b.md", "b.md", ""),
        branch(
            "x",
            vec![
                leaf("Z.md", "x/Z.md", ""),
                branch("k", vec![leaf("2.md", "x/k/2.md", ""), leaf("1.md", "x/k/1.md", "")]),
                leaf("a.md", "x/a.md", ""),
            ],
        ),
        leaf("A.md", "A.md", ""),
        branch("C", vec![leaf("n.md", "C/n.md", "")]),
    ];
    sort_nodes(&mut nodes);
    let expected = vec![
        branch("C", vec![leaf("n.md", "C/n.md", "")]),
        branch(
            "x",
            vec![
                branch("k", vec![leaf("1.md", "x/k/1.md", ""), leaf("2.md", "x/k/2.md", "")]),
                leaf("a.md", "x/a.md", ""),
                leaf("Z.md", "x/Z.md", ""),
            ],
        ),
        leaf("A.md", "A.md", ""),
        leaf("b.md", "b.md", ""),
    ];
    assert_eq!(nodes, expected);
}

#[test]
fn sort_nodes_leaves_an_ordered_forest_as_it_is() {
    let listing = vec![
        file("b.md", None),
        dir("d", vec![file("y.md", None), file("X.md", None)]),
        file("a.md", None),
    ];
    let tree = build_file_tree(Ok(listing)).unwrap();
    let mut again = build_file_tree(Ok(vec![
        file("b.md", None),
        dir("d", vec![file("y.md", None), file("X.md", None)]),
        file("a.md", None),
    ]))
    .unwrap();
    sort_nodes(&mut again);
    assert_eq!(again, tree);
}

#[test]
fn sort_nodes_takes_an_empty_forest() {
    let mut nodes: Vec<TreeNode> = vec![];
    sort_nodes(&mut nodes);
    assert!(nodes.is_empty());
}

#[test]
fn the_order_of_two_nodes() {
    let d = branch("zzz", vec![leaf("n.md", "zzz/n.md", "")]);
    let f = leaf("aaa.md", "aaa.md", "");
    let g = leaf("AAB.md", "AAB.md", "");
    assert!(node_precedes(&d, &f));
    assert!(!node_precedes(&f, &d));
    assert!(node_precedes(&f, &g));
    assert!(!node_precedes(&g, &f));
    assert!(node_precedes(&f, &f));
    let short = leaf("ab", "ab", "");
    let long = leaf("abc", "abc", "");
    assert!(node_precedes(&short, &long));
    assert!(!node_precedes(&long, &short));
}

#[test]
fn tree_errors_in_words() {
    assert_eq!(TreeError::EmptyVault.message(), "Vault directory is empty");
    assert_eq!(TreeError::IoFailure("no such file".to_string()).message(), "no such file");
}

#[test]
fn the_root_route_greets() {
    assert_eq!(hello(), "hello world");
}

#[test]
fn the_tree_route_hands_the_tree_on() {
    let tree = vec![leaf("a.md", "a.md", "A")];
    assert_eq!(notes_tree(Ok(tree)), Ok(vec![leaf("a.md", "a.md", "A")]));
}

#[test]
fn the_tree_route_reports_an_error_as_an_internal_error() {
    assert_eq!(
        notes_tree(Err(TreeError::EmptyVault)),
        Err(Failure { status: 500, message: "Vault directory is empty".to_string() })
    );
    assert_eq!(
        notes_tree(Err(TreeError::IoFailure("denied".to_string()))),
        Err(Failure { status: 500, message: "denied".to_string() })
    );
    assert_eq!(
        internal_error("x".to_string()),
        Failure { status: 500, message: "x".to_string() }
    );
}
