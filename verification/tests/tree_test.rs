use chezmoi_files::prefix_string;
use chezmoi_files::render_tree;
use chezmoi_files::split_path;
use chezmoi_files::SortOrder;
use chezmoi_files::TreeDepth;
use chezmoi_files::TreeNode;
use chezmoi_files::TreeParams;
use chezmoi_files::TreePart;
use chezmoi_files::TreeTrunk;

fn segs(parts: &[&str]) -> Vec<String> {
    parts.iter().map(|p| p.to_string()).collect()
}

fn assert_leaf_invariant(node: &TreeNode) {
    assert_eq!(node.is_leaf, node.children.is_empty());
    for (_, child) in &node.children {
        assert_leaf_invariant(child);
    }
}

#[test]
fn test_trie_insert_idempotent_and_order_preserving() {
    let mut root = TreeNode::new();
    root.add_path(&segs(&["src", "main"]));
    root.add_path(&segs(&["src", "lib"]));
    root.add_path(&segs(&["src", "main"]));

    assert!(!root.is_leaf);
    assert_eq!(root.children.len(), 1);
    let (name, src) = &root.children[0];
    assert_eq!(name, "src");
    assert!(!src.is_leaf);
    assert_eq!(src.children.len(), 2);
    assert_eq!(src.children[0].0, "main");
    assert_eq!(src.children[1].0, "lib");
    assert!(src.children[0].1.is_leaf);
    assert!(src.children[1].1.is_leaf);
}

#[test]
fn test_leaf_invariant_after_insertions() {
    let mut root = TreeNode::new();
    assert_leaf_invariant(&root);
    root.add_path(&segs(&["a", "b", "c"]));
    assert_leaf_invariant(&root);
    root.add_path(&segs(&["a", "d"]));
    assert_leaf_invariant(&root);
    root.add_path(&segs(&["e"]));
    assert_leaf_invariant(&root);
    root.add_path(&segs(&["a", "b", "c"]));
    assert_leaf_invariant(&root);
}

#[test]
fn test_empty_path_leaves_root_untouched() {
    let mut root = TreeNode::new();
    root.add_path(&Vec::new());
    assert!(root.is_leaf);
    assert!(root.children.is_empty());
}

#[test]
fn test_renderer_column_stability() {
    let mut trunk = TreeTrunk::new();
    let depth1 = TreeDepth::root().deeper();
    let r1 = trunk.new_row(TreeParams::new(depth1, false));
    let r2 = trunk.new_row(TreeParams::new(depth1, false));
    let r3 = trunk.new_row(TreeParams::new(depth1, true));
    assert_eq!(r1, vec![TreePart::Edge]);
    assert_eq!(r2, vec![TreePart::Edge]);
    assert_eq!(r3, vec![TreePart::Corner]);
    assert_eq!(prefix_string(&r1), "├──");
    assert_eq!(prefix_string(&r2), "├──");
    assert_eq!(prefix_string(&r3), "└──");
}

#[test]
fn test_retroactive_correction() {
    let mut trunk = TreeTrunk::new();
    let depth1 = TreeDepth::root().deeper();
    let depth2 = depth1.deeper();
    let r1 = trunk.new_row(TreeParams::new(depth1, false));
    let r2 = trunk.new_row(TreeParams::new(depth2, false));
    let r3 = trunk.new_row(TreeParams::new(depth2, true));
    assert_eq!(r1, vec![TreePart::Edge]);
    assert_eq!(r2, vec![TreePart::Line, TreePart::Edge]);
    assert_eq!(r3, vec![TreePart::Line, TreePart::Corner]);
    assert_eq!(prefix_string(&r3), "│   └──");
}

#[test]
fn test_root_never_prints_own_column() {
    let mut root = TreeNode::new();
    root.add_path(&segs(&["x"]));
    let rows = render_tree(&root);
    assert_eq!(rows.len(), 1);
    assert_eq!(rows[0].name, "x");
    assert_eq!(rows[0].parts, vec![TreePart::Corner]);
}

#[test]
fn test_basic_tree_output() {
    let mut root = TreeNode::new();
    root.add_path(&split_path("src/main.rs"));
    root.add_path(&split_path("src/config.rs"));
    let rows = render_tree(&root);
    assert_eq!(rows.len(), 3);
    assert_eq!(rows[0].name, "src");
    assert_eq!(rows[0].parts, vec![TreePart::Corner]);
    assert_eq!(rows[1].name, "main.rs");
    assert_eq!(rows[1].parts, vec![TreePart::Blank, TreePart::Edge]);
    assert_eq!(rows[2].name, "config.rs");
    assert_eq!(rows[2].parts, vec![TreePart::Blank, TreePart::Corner]);
    assert_eq!(prefix_string(&rows[1].parts), "    ├──");
    assert_eq!(prefix_string(&rows[2].parts), "    └──");
}

#[test]
fn test_nested_paths() {
    let mut root = TreeNode::new();
    root.add_path(&split_path("a/b/c/d/file.txt"));
    let rows = render_tree(&root);
    assert_eq!(rows.len(), 5);
    assert_eq!(rows[0].name, "a");
    assert_eq!(rows[0].parts, vec![TreePart::Corner]);
    assert_eq!(rows[1].name, "b");
    assert_eq!(rows[1].parts, vec![TreePart::Blank, TreePart::Corner]);
    assert_eq!(rows[4].name, "file.txt");
    assert_eq!(
        rows[4].parts,
        vec![
            TreePart::Blank,
            TreePart::Blank,
            TreePart::Blank,
            TreePart::Blank,
            TreePart::Corner
        ]
    );
}

#[test]
fn test_multiple_files_same_dir() {
    let mut root = TreeNode::new();
    root.add_path(&split_path("src/a.rs"));
    root.add_path(&split_path("src/b.rs"));
    root.add_path(&split_path("src/c.rs"));
    let rows = render_tree(&root);
    assert_eq!(rows.len(), 4);
    assert_eq!(rows[0].name, "src");
    assert_eq!(rows[1].name, "a.rs");
    assert_eq!(rows[1].parts, vec![TreePart::Blank, TreePart::Edge]);
    assert_eq!(rows[2].name, "b.rs");
    assert_eq!(rows[2].parts, vec![TreePart::Blank, TreePart::Edge]);
    assert_eq!(rows[3].name, "c.rs");
    assert_eq!(rows[3].parts, vec![TreePart::Blank, TreePart::Corner]);
}

#[test]
fn test_empty_input() {
    let root = TreeNode::new();
    let rows = render_tree(&root);
    assert_eq!(rows.len(), 0);
}

#[test]
fn test_sort_name() {
    let mut root = TreeNode::new();
    root.add_path(&split_path("c.txt"));
    root.add_path(&split_path("a.txt"));
    root.add_path(&split_path("b.txt"));
    root.sort(SortOrder::Name);
    assert_eq!(root.children[0].0, "a.txt");
    assert_eq!(root.children[1].0, "b.txt");
    assert_eq!(root.children[2].0, "c.txt");
}

#[test]
fn test_sort_type() {
    let mut root = TreeNode::new();
    root.add_path(&split_path("file.txt"));
    root.add_path(&split_path("dir/nested.txt"));
    root.add_path(&split_path("file.rs"));
    root.sort(SortOrder::Type);
    assert_eq!(root.children[0].0, "dir");
    assert_eq!(root.children[1].0, "file.rs");
    assert_eq!(root.children[2].0, "file.txt");
}

#[test]
fn test_sort_recurses_into_children() {
    let mut root = TreeNode::new();
    root.add_path(&split_path("d/z.txt"));
    root.add_path(&split_path("d/a.txt"));
    root.sort(SortOrder::Name);
    let d = &root.children[0].1;
    assert_eq!(d.children[0].0, "a.txt");
    assert_eq!(d.children[1].0, "z.txt");
}

#[test]
fn test_sorted_tree_renders() {
    let mut root = TreeNode::new();
    root.add_path(&split_path("b/z.txt"));
    root.add_path(&split_path("a/y.txt"));
    root.sort(SortOrder::Name);
    let rows = render_tree(&root);
    assert_eq!(rows.len(), 4);
    assert_eq!(rows[0].name, "a");
    assert_eq!(rows[1].name, "y.txt");
    assert_eq!(rows[2].name, "b");
    assert_eq!(rows[2].parts, vec![TreePart::Corner]);
    assert_eq!(rows[3].name, "z.txt");
    assert_eq!(rows[3].parts, vec![TreePart::Blank, TreePart::Corner]);
}

#[test]
fn test_deep_then_shallow_rows() {
    let mut root = TreeNode::new();
    root.add_path(&split_path("a/deep/file"));
    root.add_path(&split_path("b"));
    let rows = render_tree(&root);
    assert_eq!(rows.len(), 4);
    assert_eq!(rows[0].name, "a");
    assert_eq!(rows[0].parts, vec![TreePart::Edge]);
    assert_eq!(rows[1].name, "deep");
    assert_eq!(rows[1].parts, vec![TreePart::Line, TreePart::Corner]);
    assert_eq!(rows[2].name, "file");
    assert_eq!(
        rows[2].parts,
        vec![TreePart::Line, TreePart::Blank, TreePart::Corner]
    );
    assert_eq!(rows[3].name, "b");
    assert_eq!(rows[3].parts, vec![TreePart::Corner]);
}

#[test]
fn test_ascii_art_glyphs() {
    assert_eq!(TreePart::Edge.ascii_art(), "├──");
    assert_eq!(TreePart::Line.ascii_art(), "│   ");
    assert_eq!(TreePart::Corner.ascii_art(), "└──");
    assert_eq!(TreePart::Blank.ascii_art(), "    ");
}

#[test]
fn test_tree_depth_counts() {
    let d0 = TreeDepth::root();
    assert_eq!(d0.0, 0);
    assert_eq!(d0.deeper().0, 1);
    assert_eq!(d0.deeper().deeper().0, 2);
}
