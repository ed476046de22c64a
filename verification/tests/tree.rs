use dirview::tree::{
    draw_tree, goes_into, has_line_at, is_within, print_item, process_dir, render_tree,
    tree_directory, TreeError, TreeNode, DEFAULT_MAX_DEPTH,
};

fn file(name: &str) -> TreeNode {
    TreeNode {
        path: name.as_bytes().to_vec(),
        name: Some(String::from(name)),
        is_dir: false,
        children: Vec::new(),
    }
}

fn dir(name: &str, children: Vec<TreeNode>) -> TreeNode {
    TreeNode {
        path: name.as_bytes().to_vec(),
        name: Some(String::from(name)),
        is_dir: true,
        children,
    }
}

fn nameless(path: &[u8]) -> TreeNode {
    TreeNode { path: path.to_vec(), name: None, is_dir: false, children: Vec::new() }
}

#[test]
fn tree_of_a_directory_with_one_file() {
    let root = dir("d", vec![file("only.txt")]);
    assert_eq!(render_tree("d", &root), "d\n\u{2514}\u{2500}\u{2500} only.txt\n");
    assert_eq!(render_tree("d", &root), "d\n└── only.txt\n");
}

#[test]
fn tree_of_an_empty_directory_is_the_root_line() {
    let root = dir(".", Vec::new());
    assert_eq!(render_tree(".", &root), ".\n");
}

#[test]
fn only_the_last_child_closes_the_directory() {
    let root = dir(".", vec![file("c"), file("a"), file("b")]);
    assert_eq!(render_tree(".", &root), ".\n├── a\n├── b\n└── c\n");
}

#[test]
fn bars_follow_the_ancestors_that_go_on() {
    let root = dir(
        ".",
        vec![
            dir("c", vec![dir("z", vec![file("w")])]),
            file("a"),
            dir("b", vec![file("y"), file("x")]),
        ],
    );
    let expected = "\
.
├── a
├── b
│   ├── x
│   └── y
└── c
    └── z
        └── w
";
    assert_eq!(render_tree(".", &root), expected);
}

#[test]
fn deeper_levels_keep_the_bars_of_every_level_above() {
    let root = dir(
        ".",
        vec![
            dir("a", vec![dir("b", vec![dir("c", vec![file("d")]), file("e")]), file("f")]),
            file("g"),
        ],
    );
    let expected = "\
top
├── a
│   ├── b
│   │   ├── c
│   │   │   └── d
│   │   └── e
│   └── f
└── g
";
    assert_eq!(render_tree("top", &root), expected);
}

#[test]
fn children_are_taken_in_byte_order_of_their_paths() {
    let root = dir(".", vec![file("apple"), dir("Zebra", vec![file("x")]), file("_")]);
    let expected = "\
.
├── Zebra
│   └── x
├── _
└── apple
";
    assert_eq!(render_tree(".", &root), expected);
}

#[test]
fn dot_names_have_no_line_and_are_not_gone_into() {
    let root = dir(
        ".",
        vec![
            dir(".git", vec![file("config"), dir("objects", vec![file("x")])]),
            file("a"),
            file(".b"),
        ],
    );
    assert_eq!(render_tree(".", &root), ".\n└── a\n");
}

#[test]
fn a_hidden_last_child_leaves_the_directory_open() {
    // "~" sorts last, but has no line: nothing closes the directory
    let mut hidden_last = file(".z");
    hidden_last.path = b"~".to_vec();
    let root = dir(".", vec![file("a"), hidden_last]);
    assert_eq!(render_tree(".", &root), ".\n├── a\n");
}

#[test]
fn a_child_without_a_name_counts_but_has_no_line() {
    let root = dir(".", vec![file("a"), nameless(b"b")]);
    assert_eq!(render_tree(".", &root), ".\n├── a\n");
    let root = dir(".", vec![nameless(b"0"), file("a")]);
    assert_eq!(render_tree(".", &root), ".\n└── a\n");
}

#[test]
fn a_file_is_not_gone_into() {
    let mut odd = file("a");
    odd.children = vec![file("x")];
    let root = dir(".", vec![odd]);
    assert_eq!(render_tree(".", &root), ".\n└── a\n");
}

#[test]
fn print_item_draws_a_column_for_each_level() {
    let name = Some(String::from("n"));
    assert_eq!(print_item(&name, 0, &vec![], true), "└── n\n");
    assert_eq!(print_item(&name, 0, &vec![], false), "├── n\n");
    assert_eq!(print_item(&name, 3, &vec![0, 2], false), "│       │   ├── n\n");
    assert_eq!(print_item(&name, 3, &vec![1], true), "    │       └── n\n");
    assert_eq!(print_item(&name, 2, &vec![], true), "        └── n\n");
    // levels at or below the entry draw nothing
    assert_eq!(print_item(&name, 1, &vec![1, 5, 0, 0], true), "│   └── n\n");
}

#[test]
fn print_item_skips_what_is_hidden_or_has_no_name() {
    assert_eq!(print_item(&Some(String::from(".n")), 2, &vec![0], true), "");
    assert_eq!(print_item(&None, 2, &vec![0], false), "");
    assert_eq!(print_item(&Some(String::new()), 0, &vec![], true), "└── \n");
}

#[test]
fn process_dir_restores_the_levels() {
    let root = dir(".", vec![dir("a", vec![file("x")]), dir("b", vec![file("y")])]);
    let mut lines_at = vec![0];
    let out = process_dir(&root, 1, &mut lines_at);
    assert_eq!(lines_at, vec![0]);
    let expected = "\
│   ├── a
│   │   └── x
│   └── b
│       └── y
";
    assert_eq!(out, expected);
}

#[test]
fn process_dir_of_a_directory_without_children() {
    let mut lines_at = Vec::new();
    assert_eq!(process_dir(&dir("e", Vec::new()), 0, &mut lines_at), "");
    assert!(lines_at.is_empty());
}

#[test]
fn has_line_at_finds_a_level() {
    assert!(!has_line_at(&vec![], 0));
    assert!(has_line_at(&vec![3, 1], 1));
    assert!(has_line_at(&vec![3, 1], 3));
    assert!(!has_line_at(&vec![3, 1], 2));
}

#[test]
fn a_directory_without_a_name_is_skipped_and_not_gone_into() {
    let mut unnamed = dir("b", vec![file("inside"), dir("c", vec![file("deeper")])]);
    unnamed.name = None;
    let root = dir(".", vec![file("d"), unnamed, file("a")]);
    assert_eq!(render_tree(".", &root), ".\n├── a\n└── d\n");
    assert_eq!(draw_tree(".", &root, 8), Ok(String::from(".\n├── a\n└── d\n")));
    let mut lines_at = Vec::new();
    assert_eq!(process_dir(&root, 0, &mut lines_at), "├── a\n└── d\n");
    assert!(lines_at.is_empty());
}

#[test]
fn a_directory_without_a_name_counts_among_its_siblings() {
    // it sorts last and has no line: nothing closes the directory
    let mut unnamed = dir("z", vec![file("inside")]);
    unnamed.name = None;
    let root = dir(".", vec![unnamed, file("a")]);
    assert_eq!(render_tree(".", &root), ".\n├── a\n");
}

#[test]
fn a_directory_without_a_name_deep_in_the_tree() {
    let mut unnamed = dir("m", vec![file("inside")]);
    unnamed.name = None;
    let root = dir(".", vec![dir("a", vec![file("x"), unnamed, file("y")]), file("b")]);
    let expected = "\
.
├── a
│   ├── x
│   └── y
└── b
";
    assert_eq!(render_tree(".", &root), expected);
    assert_eq!(draw_tree(".", &root, 1), Ok(String::from(expected)));
}

#[test]
fn nothing_below_a_hidden_directory_is_looked_at() {
    let mut unnamed = dir("c", Vec::new());
    unnamed.name = None;
    let root = dir(".", vec![dir(".a", vec![unnamed])]);
    assert_eq!(draw_tree(".", &root, 8), Ok(String::from(".\n")));
}

#[test]
fn is_within_minds_the_deepest_level_that_is_gone_into() {
    // a is gone into at depth 0, b at depth 1
    let root = dir(".", vec![dir("a", vec![dir("b", vec![file("x")])])]);
    assert!(is_within(&root, 0, 2));
    assert!(!is_within(&root, 0, 1));
    assert!(!is_within(&root, 0, 0));
    assert!(is_within(&root, 5, 7));
    assert!(!is_within(&root, 5, 6));
    assert!(is_within(&root, usize::MAX - 2, usize::MAX));
    assert!(!is_within(&root, usize::MAX - 1, usize::MAX));
    assert!(!is_within(&root, usize::MAX, usize::MAX));
    // nothing is gone into: any depth will do
    assert!(is_within(&dir(".", vec![file("x"), dir(".h", vec![file("y")])]), usize::MAX, 0));
    assert!(is_within(&dir(".", Vec::new()), 3, 0));
}

#[test]
fn draw_tree_draws_what_render_tree_renders() {
    let root = dir(".", vec![dir("b", vec![file("y"), file("x")]), file("a")]);
    let drawn = draw_tree("top", &root, DEFAULT_MAX_DEPTH).unwrap();
    assert_eq!(drawn, "top\n├── a\n└── b\n    ├── x\n    └── y\n");
    assert_eq!(drawn, render_tree("top", &root));
    assert_eq!(draw_tree("top", &root, 1).unwrap(), drawn);
}

#[test]
fn draw_tree_refuses_a_tree_that_is_too_deep() {
    let root = dir(".", vec![dir("a", vec![dir("b", vec![file("x")])])]);
    assert_eq!(draw_tree(".", &root, 1), Err(TreeError::TooDeep));
    assert_eq!(draw_tree(".", &root, 0), Err(TreeError::TooDeep));
    assert!(draw_tree(".", &root, 2).is_ok());
    assert_eq!(DEFAULT_MAX_DEPTH, 4096);
}

#[test]
fn draw_tree_counts_no_depth_below_a_directory_without_a_name() {
    // what lies below the unnamed directory is not gone into, however deep
    let mut unnamed = dir("a", vec![dir("b", vec![dir("c", vec![file("x")])])]);
    unnamed.name = None;
    let root = dir(".", vec![file("f"), unnamed]);
    assert!(is_within(&root, 0, 0));
    assert_eq!(draw_tree(".", &root, 0), Ok(String::from(".\n└── f\n")));
    // beside a named directory the limit still holds
    let mut deep = dir("c", Vec::new());
    deep.name = None;
    let both = dir(".", vec![dir("a", vec![dir("b", vec![deep])])]);
    assert_eq!(draw_tree(".", &both, 1), Err(TreeError::TooDeep));
    assert_eq!(draw_tree(".", &both, 2), Ok(String::from(".\n└── a\n    └── b\n")));
}

#[test]
fn rendering_a_tree_twice_gives_the_same_text() {
    let root = dir(".", vec![dir("b", vec![file("y"), file("x")]), file("a")]);
    assert_eq!(render_tree(".", &root), render_tree(".", &root));
}

#[test]
fn the_order_of_enumeration_does_not_show_in_the_tree() {
    let one = dir(
        ".",
        vec![dir("b", vec![file("y"), file("x"), dir("z", vec![file("q"), file("p")])]), file("a")],
    );
    let other = dir(
        ".",
        vec![file("a"), dir("b", vec![dir("z", vec![file("p"), file("q")]), file("x"), file("y")])],
    );
    let expected = "\
.
├── a
└── b
    ├── x
    ├── y
    └── z
        ├── p
        └── q
";
    assert_eq!(render_tree(".", &one), expected);
    assert_eq!(render_tree(".", &other), expected);
}

#[test]
fn tree_directory_is_the_first_argument_or_the_current_directory() {
    assert_eq!(tree_directory(&Vec::new()), ".");
    assert_eq!(tree_directory(&vec![String::from("src")]), "src");
    assert_eq!(tree_directory(&vec![String::from("src"), String::from("docs")]), "src");
}

#[test]
fn goes_into_named_directories_that_are_not_hidden() {
    assert!(goes_into(&dir("a", Vec::new())));
    assert!(!goes_into(&dir(".a", Vec::new())));
    assert!(!goes_into(&file("a")));
    let mut unnamed = dir("a", Vec::new());
    unnamed.name = None;
    assert!(!goes_into(&unnamed));
}
