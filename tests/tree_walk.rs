use treeview::tree::{build_tree, Node, TreeEntry};

fn file(name: &str, parent: &str) -> Node {
    Node {
        name: name.as_bytes().to_vec(),
        path: format!("{}/{}", parent, name),
        is_dir: false,
        children: Vec::new(),
    }
}

fn dir(name: &str, parent: &str, children: Vec<Node>) -> Node {
    Node {
        name: name.as_bytes().to_vec(),
        path: format!("{}/{}", parent, name),
        is_dir: true,
        children,
    }
}

fn shape(entries: &[TreeEntry]) -> Vec<(String, usize, bool)> {
    entries
        .iter()
        .map(|e| (String::from_utf8(e.name.clone()).unwrap(), e.depth, e.is_directory))
        .collect()
}

fn sample() -> Vec<Node> {
    vec![
        file("d.txt", "."),
        dir("b", ".", vec![file("c.txt", "./b")]),
        dir(".git", ".", vec![file("HEAD", "./.git")]),
        file("a.txt", "."),
    ]
}

#[test]
fn flat_directory_walk_in_name_order() {
    let entries = build_tree(&sample(), false);
    assert_eq!(
        shape(&entries),
        vec![
            ("a.txt".to_string(), 0, false),
            ("b".to_string(), 0, true),
            ("c.txt".to_string(), 1, false),
            ("d.txt".to_string(), 0, false),
        ]
    );
    assert_eq!(entries[2].path, "./b/c.txt");
}

#[test]
fn hidden_entries_and_their_contents_shown_on_request() {
    let entries = build_tree(&sample(), true);
    assert_eq!(
        shape(&entries),
        vec![
            (".git".to_string(), 0, true),
            ("HEAD".to_string(), 1, false),
            ("a.txt".to_string(), 0, false),
            ("b".to_string(), 0, true),
            ("c.txt".to_string(), 1, false),
            ("d.txt".to_string(), 0, false),
        ]
    );
}

#[test]
fn no_hidden_name_when_hidden_left_out() {
    let tree = vec![dir("src", ".", vec![file(".cache", "./src"), dir(".x", "./src", vec![file("y", "./src/.x")])])];
    let entries = build_tree(&tree, false);
    assert_eq!(shape(&entries), vec![("src".to_string(), 0, true)]);
}

#[test]
fn names_compare_by_bytes() {
    let tree = vec![file("a", "."), file("B", "."), file("ab", "."), file("_", ".")];
    let entries = build_tree(&tree, false);
    let names: Vec<String> = shape(&entries).into_iter().map(|t| t.0).collect();
    assert_eq!(names, vec!["B", "_", "a", "ab"]);
}

#[test]
fn nested_walk_is_preorder() {
    let tree = vec![
        dir("x", ".", vec![dir("y", "./x", vec![file("z", "./x/y")]), file("w", "./x")]),
        file("v", "."),
    ];
    let entries = build_tree(&tree, false);
    assert_eq!(
        shape(&entries),
        vec![
            ("v".to_string(), 0, false),
            ("x".to_string(), 0, true),
            ("w".to_string(), 1, false),
            ("y".to_string(), 1, true),
            ("z".to_string(), 2, false),
        ]
    );
}

#[test]
fn empty_listing_gives_empty_tree() {
    assert!(build_tree(&Vec::new(), true).is_empty());
}

#[test]
fn deeper_entry_lies_in_entry_before() {
    let tree = vec![
        dir("x", ".", vec![dir("y", "./x", vec![file("z", "./x/y")]), file("w", "./x")]),
        file("v", "."),
    ];
    let entries = build_tree(&tree, false);
    let mut steps = 0;
    for k in 0..entries.len() - 1 {
        if entries[k + 1].depth > entries[k].depth {
            let name = String::from_utf8(entries[k + 1].name.clone()).unwrap();
            assert_eq!(entries[k + 1].path, format!("{}/{}", entries[k].path, name));
            steps += 1;
        }
    }
    assert_eq!(steps, 2);
}
