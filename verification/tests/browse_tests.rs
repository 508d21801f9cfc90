use player::browse::Browser;

fn build_from(paths: &[&str]) -> Browser {
    Browser::build(paths.iter().map(|p| p.to_string()).collect())
}

fn root_file_names(b: &Browser) -> Vec<String> {
    b.nodes[0].files.iter().map(|f| f.name.clone()).collect()
}

fn child_names(b: &Browser, node: usize) -> Vec<String> {
    b.nodes[node]
        .children
        .iter()
        .map(|c| b.nodes[*c].name.clone())
        .collect()
}

fn all_leaf_paths(b: &Browser) -> Vec<String> {
    let mut out: Vec<String> = Vec::new();
    for d in &b.nodes {
        for f in &d.files {
            out.push(f.path.clone());
        }
    }
    out.sort();
    out
}

#[test]
fn empty_listing_gives_bare_root() {
    let b = build_from(&[]);
    assert_eq!(b.nodes.len(), 1);
    assert_eq!(b.nodes[0].name, "Home");
    assert!(b.nodes[0].children.is_empty());
    assert!(b.nodes[0].files.is_empty());
    assert_eq!(b.focus, 0);
}

#[test]
fn root_files_are_sorted_alphabetically() {
    let b = build_from(&["b", "a", "c"]);
    assert_eq!(root_file_names(&b), vec!["a", "b", "c"]);
}

#[test]
fn shared_directory_is_deduplicated() {
    let b = build_from(&["a/x", "a/y"]);
    assert_eq!(child_names(&b, 0), vec!["a"]);
    assert!(b.nodes[0].files.is_empty());
    let a = b.nodes[0].children[0];
    let names: Vec<String> = b.nodes[a].files.iter().map(|f| f.name.clone()).collect();
    assert_eq!(names, vec!["x", "y"]);
    let paths: Vec<String> = b.nodes[a].files.iter().map(|f| f.path.clone()).collect();
    assert_eq!(paths, vec!["a/x", "a/y"]);
}

#[test]
fn leaves_reproduce_the_input_path_set() {
    let input = &[
        "movies/action/alpha.mp4",
        "movies/action/beta.mp4",
        "movies/beta.mp4",
        "shows/s1/e1.mp4",
        "trailer.mp4",
    ];
    let b = build_from(input);
    let mut expect: Vec<String> = input.iter().map(|p| p.to_string()).collect();
    expect.sort();
    assert_eq!(all_leaf_paths(&b), expect);
}

#[test]
fn both_orderings_build_identical_trees() {
    let b1 = build_from(&["show/ep1.mp4", "show/ep2.mp4", "trailer.mp4"]);
    let b2 = build_from(&["trailer.mp4", "show/ep2.mp4", "show/ep1.mp4"]);
    for b in [&b1, &b2] {
        assert_eq!(root_file_names(b), vec!["trailer.mp4"]);
        assert_eq!(child_names(b, 0), vec!["show"]);
        let show = b.nodes[0].children[0];
        let names: Vec<String> = b.nodes[show].files.iter().map(|f| f.name.clone()).collect();
        assert_eq!(names, vec!["ep1.mp4", "ep2.mp4"]);
        assert!(b.nodes[show].children.is_empty());
    }
    assert_eq!(all_leaf_paths(&b1), all_leaf_paths(&b2));
}

#[test]
fn sibling_directories_are_sorted() {
    let b = build_from(&["c/one", "a/one", "b/one"]);
    assert_eq!(child_names(&b, 0), vec!["a", "b", "c"]);
}

#[test]
fn nested_directories_nest() {
    let b = build_from(&["a/b/c/deep.mp4"]);
    assert_eq!(child_names(&b, 0), vec!["a"]);
    let a = b.nodes[0].children[0];
    assert_eq!(child_names(&b, a), vec!["b"]);
    let bb = b.nodes[a].children[0];
    assert_eq!(child_names(&b, bb), vec!["c"]);
    let c = b.nodes[bb].children[0];
    assert_eq!(b.nodes[c].files.len(), 1);
    assert_eq!(b.nodes[c].files[0].name, "deep.mp4");
    assert_eq!(b.nodes[c].files[0].path, "a/b/c/deep.mp4");
}

#[test]
fn breadcrumb_of_root_is_home() {
    let b = build_from(&["show/e.mp4"]);
    let crumb = b.build_breadcrumb();
    assert_eq!(crumb.len(), 1);
    assert_eq!(crumb[0].0, "Home");
    assert_eq!(crumb[0].1, 0);
}

#[test]
fn breadcrumb_runs_from_root_to_focus() {
    let mut b = build_from(&["a/b/x.mp4", "a/y.mp4"]);
    let a = b.nodes[0].children[0];
    let ab = b.nodes[a].children[0];
    b.set_focus(ab);
    let crumb = b.build_breadcrumb();
    let names: Vec<String> = crumb.iter().map(|(n, _)| n.clone()).collect();
    let nodes: Vec<usize> = crumb.iter().map(|(_, i)| *i).collect();
    assert_eq!(names, vec!["Home", "a", "b"]);
    assert_eq!(nodes, vec![0, a, ab]);
}

#[test]
fn parent_links_point_upward() {
    let b = build_from(&["a/b/x.mp4"]);
    assert!(b.nodes[0].parent.is_none());
    let a = b.nodes[0].children[0];
    assert_eq!(b.nodes[a].parent, Some(0));
    let ab = b.nodes[a].children[0];
    assert_eq!(b.nodes[ab].parent, Some(a));
}

#[test]
fn ordering_is_ordinal_not_locale_aware() {
    let b = build_from(&["banana", "Apple", "apple", "Banana"]);
    assert_eq!(root_file_names(&b), vec!["Apple", "Banana", "apple", "banana"]);
}

#[test]
fn file_and_directory_can_share_a_level() {
    let b = build_from(&["docs/readme.txt", "docs.txt"]);
    assert_eq!(root_file_names(&b), vec!["docs.txt"]);
    assert_eq!(child_names(&b, 0), vec!["docs"]);
}
