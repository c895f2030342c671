use summary2wiki::navigation::{
    destination_path, flatten_path, navigation_block, navigation_for, position_of, prepend_text, strip_root, with_navigation,
};
use summary2wiki::outline::{indent_depth, leading_space_count, leaf_lines, parse_outline, Node};
use summary2wiki::sidebar::{
    contains_char, dash_separators, dash_slashes, flat_entry_of, flatten_target, has_bullet_marker, is_link_line, link_lines,
    link_target_of, progression_of, sidebar_entries, sidebar_text, split_text_lines, strip_dot_slash, strip_md,
};
use summary2wiki::wiki::{interpret, is_summary_file, Builder};

const EXAMPLE: &str = "- [Intro](./intro.md)\n- [Setup](./setup/install.md)\n  - [Advanced](./setup/advanced.md)\n";

fn strings(v: &[&str]) -> Vec<String> {
    v.iter().map(|s| s.to_string()).collect()
}

fn leaf(n: &Node) -> &str {
    match n {
        Node::Leaf(s) => s.as_str(),
        Node::Group(_) => panic!("expected a leaf"),
    }
}

fn group(n: &Node) -> &Vec<Node> {
    match n {
        Node::Group(g) => g,
        Node::Leaf(_) => panic!("expected a group"),
    }
}

#[test]
fn example_sidebar() {
    let outline = interpret(EXAMPLE);
    assert_eq!(
        outline.sidebar,
        "[Home](home)\n\n- [Intro](intro)\n- [Setup](setup-install)\n  - [Advanced](setup-advanced)\n"
    );
}

#[test]
fn example_progression() {
    let outline = interpret(EXAMPLE);
    assert_eq!(outline.order, strings(&["intro.md", "setup-install.md", "setup-advanced.md"]));
}

#[test]
fn example_navigation() {
    let order = interpret(EXAMPLE).order;
    let first = navigation_for(&order, "intro.md").unwrap();
    assert!(first.contains("<td><a href=\"home\">◀</a></td>"));
    assert!(first.contains("<td><a href=\"setup-install\">▶</a></td>"));
    let middle = navigation_for(&order, "setup-install.md").unwrap();
    assert!(middle.contains("<td><a href=\"intro\">◀</a></td>"));
    assert!(middle.contains("<td><a href=\"setup-advanced\">▶</a></td>"));
    let last = navigation_for(&order, "setup-advanced.md").unwrap();
    assert!(last.contains("<td><a href=\"setup-install\">◀</a></td>"));
    assert!(!last.contains("▶"));
}

#[test]
fn navigation_block_exact_text() {
    let order = strings(&["intro.md", "setup-install.md"]);
    assert_eq!(
        navigation_block(&order, 0),
        "<table>\n<tr>\n<td><a href=\"home\">◀</a></td>\n<td width=\"9999\" align=\"center\"></td>\n<td><a href=\"setup-install\">▶</a></td>\n</tr>\n</table>\n\n"
    );
    assert_eq!(
        navigation_block(&order, 1),
        "<table>\n<tr>\n<td><a href=\"intro\">◀</a></td>\n<td width=\"9999\" align=\"center\"></td>\n</tr>\n</table>\n\n"
    );
}

#[test]
fn single_entry_points_home_only() {
    let order = strings(&["only.md"]);
    let block = navigation_block(&order, 0);
    assert!(block.contains("href=\"home\""));
    assert!(!block.contains("▶"));
}

#[test]
fn file_outside_reading_order_is_unchanged() {
    let order = strings(&["intro.md"]);
    let data = b"# Image notes\n".to_vec();
    assert_eq!(with_navigation(&order, "notes.md", &data), data);
    assert!(navigation_for(&order, "notes.md").is_none());
    assert_eq!(position_of(&order, "notes.md"), None);
}

#[test]
fn file_in_reading_order_gets_block_first() {
    let order = strings(&["intro.md", "next.md"]);
    let data = b"# Intro\n".to_vec();
    let out = with_navigation(&order, "intro.md", &data);
    let block = navigation_block(&order, 0);
    let mut expected = block.as_bytes().to_vec();
    expected.extend_from_slice(&data);
    assert_eq!(out, expected);
}

#[test]
fn position_is_first_match() {
    let order = strings(&["a.md", "b.md", "a.md"]);
    assert_eq!(position_of(&order, "a.md"), Some(0));
    assert_eq!(position_of(&order, "b.md"), Some(1));
}

#[test]
fn prepend_text_puts_bytes_first() {
    assert_eq!(prepend_text("ab", &vec![1u8, 2]), vec![b'a', b'b', 1, 2]);
    assert_eq!(prepend_text("◀", &vec![]), "◀".as_bytes().to_vec());
}

#[test]
fn flattening_nested_path() {
    assert_eq!(flatten_path("a/b/c.md"), "a-b-c.md");
    assert_eq!(flatten_path("a\\b\\c.md"), "a-b-c.md");
    assert_eq!(flatten_path("top.md"), "top.md");
    assert_eq!(destination_path("wiki", "a/b/c.md"), "wiki/a-b-c.md");
}

#[test]
fn leading_spaces_and_depth() {
    assert_eq!(leading_space_count("- [A](a.md)"), 0);
    assert_eq!(leading_space_count("   - [A](a.md)"), 3);
    assert_eq!(leading_space_count("    "), 4);
    assert_eq!(indent_depth("  - [A](a.md)"), 1);
    assert_eq!(indent_depth("   - [A](a.md)"), 1);
    assert_eq!(indent_depth("    - [A](a.md)"), 2);
    assert_eq!(indent_depth(""), 0);
}

#[test]
fn parse_empty_gives_empty_root() {
    let tree = parse_outline(&vec![]);
    assert!(tree.is_empty());
}

#[test]
fn parse_nests_by_depth() {
    let lines = strings(&["- [A](a.md)", "  - [B](b.md)", "    - [C](c.md)", "  - [D](d.md)", "- [E](e.md)"]);
    let tree = parse_outline(&lines);
    assert_eq!(tree.len(), 3);
    assert_eq!(leaf(&tree[0]), "- [A](a.md)");
    let g1 = group(&tree[1]);
    assert_eq!(g1.len(), 3);
    assert_eq!(leaf(&g1[0]), "  - [B](b.md)");
    let g2 = group(&g1[1]);
    assert_eq!(g2.len(), 1);
    assert_eq!(leaf(&g2[0]), "    - [C](c.md)");
    assert_eq!(leaf(&g1[2]), "  - [D](d.md)");
    assert_eq!(leaf(&tree[2]), "- [E](e.md)");
    assert_eq!(leaf_lines(&tree), lines);
}

#[test]
fn parse_first_line_indented() {
    let lines = strings(&["    - [A](a.md)", "- [B](b.md)"]);
    let tree = parse_outline(&lines);
    assert_eq!(tree.len(), 2);
    let g = group(&tree[0]);
    assert_eq!(leaf(&g[0]), "    - [A](a.md)");
    assert_eq!(leaf(&tree[1]), "- [B](b.md)");
    assert_eq!(leaf_lines(&tree), lines);
}

#[test]
fn odd_indentation_rounds_down() {
    let lines = strings(&["- [A](a.md)", " - [B](b.md)", "   - [C](c.md)"]);
    let tree = parse_outline(&lines);
    assert_eq!(tree.len(), 3);
    assert_eq!(leaf(&tree[1]), " - [B](b.md)");
    let g = group(&tree[2]);
    assert_eq!(leaf(&g[0]), "   - [C](c.md)");
}

#[test]
fn order_preserved_through_sidebar() {
    let lines = strings(&["# [Title](./title.md)", "- [A](./a.md)", "  - [B](./x/b.md)", "- [C](./c.md)"]);
    let tree = parse_outline(&lines);
    let ordered = leaf_lines(&tree);
    assert_eq!(ordered, lines);
    assert_eq!(
        sidebar_entries(&ordered),
        strings(&["# [Title](title)", "- [A](a)", "  - [B](x-b)", "- [C](c)"])
    );
}

#[test]
fn heading_without_bullet_is_not_in_progression() {
    let lines = strings(&["# [Title](./title.md)", "- [A](./a.md)", "[Loose](./loose.md)"]);
    assert_eq!(progression_of(&lines), strings(&["a.md"]));
}

#[test]
fn link_lines_keep_only_link_shaped() {
    let text = "# Summary\n\n[Intro](./intro.md)\n- plain item\n- [A](./a.md)";
    assert_eq!(link_lines(text), strings(&["[Intro](./intro.md)", "- [A](./a.md)"]));
}

#[test]
fn split_lines_counts_newlines() {
    assert_eq!(split_text_lines("a\nb\n"), strings(&["a", "b", ""]));
    assert_eq!(split_text_lines(""), strings(&[""]));
    assert_eq!(split_text_lines("one"), strings(&["one"]));
}

#[test]
fn line_predicates() {
    assert!(contains_char("ab(c", '('));
    assert!(!contains_char("abc", '('));
    assert!(is_link_line("- [A](a.md)"));
    assert!(!is_link_line("- (a.md)"));
    assert!(has_bullet_marker("  - [A](a.md)"));
    assert!(!has_bullet_marker("# [A](a.md)"));
    assert!(!has_bullet_marker("-[A](a.md)"));
}

#[test]
fn target_steps() {
    assert_eq!(strip_dot_slash("./a/b.md"), "a/b.md");
    assert_eq!(strip_dot_slash("a/b.md"), "a/b.md");
    assert_eq!(dash_separators("a/b/c"), "a-b-c");
    assert_eq!(strip_md("a-b.md"), "a-b");
    assert_eq!(strip_md("a.mdx"), "a.mdx");
    assert_eq!(flatten_target("./setup/install.md"), "setup-install");
    assert_eq!(flatten_target("setup/notes.md.txt"), "setup-notes.md.txt");
}

#[test]
fn flat_entry_leaves_display_text() {
    assert_eq!(flat_entry_of("- [a/b.md](./a/b.md)"), "- [a/b.md](a-b)");
    assert_eq!(flat_entry_of("- [A](./a.md) trailing"), "- [A](a) trailing");
    assert_eq!(flat_entry_of("no link here"), "no link here");
    assert_eq!(link_target_of("- [A](./a.md)"), "./a.md");
    assert_eq!(link_target_of("- [A]"), "");
}

#[test]
fn sidebar_text_layout() {
    assert_eq!(sidebar_text(&vec![]), "[Home](home)\n\n");
    assert_eq!(sidebar_text(&strings(&["- [A](a)"])), "[Home](home)\n\n- [A](a)\n");
}

#[test]
fn interpreting_twice_gives_same_output() {
    let a = interpret(EXAMPLE);
    let b = interpret(EXAMPLE);
    assert_eq!(a.sidebar, b.sidebar);
    assert_eq!(a.order, b.order);
}

#[test]
fn builder_defaults_and_paths() {
    let b = Builder::new();
    assert_eq!(b.name(), "wiki");
    assert_eq!(b.source(), "book");
    assert_eq!(b.summary_path(), "book/src/SUMMARY.md");
    assert_eq!(b.content_root(), "book/src");
    assert_eq!(b.sidebar_path(), "wiki/_Sidebar.md");
    assert_eq!(b.home_path(), "wiki/home.md");
    let b = b.set_name("out").set_source("docs");
    assert_eq!(b.name(), "out");
    assert_eq!(b.source(), "docs");
    assert_eq!(b.summary_path(), "docs/src/SUMMARY.md");
}

#[test]
fn strip_root_keeps_relative_part() {
    assert_eq!(strip_root("book/src", "book/src/a/b.md"), Some("a/b.md".to_string()));
    assert_eq!(strip_root("book/src", "book/src\\a.md"), Some("a.md".to_string()));
    assert_eq!(strip_root("book/src", "book/srcx/a.md"), None);
    assert_eq!(strip_root("book/src", "book/src"), None);
    assert_eq!(strip_root("book/src", "other/a.md"), None);
}

#[test]
fn summary_file_is_recognised() {
    assert!(is_summary_file("SUMMARY.md"));
    assert!(!is_summary_file("summary.md"));
    assert!(!is_summary_file("intro.md"));
}

#[test]
fn link_target_keeps_backslashes() {
    assert_eq!(flat_entry_of("- [a](x\\y.md)"), "- [a](x\\y)");
    assert_eq!(flatten_target("./a\\b/c.md"), "a\\b-c");
    assert_eq!(dash_slashes("a\\b/c"), "a\\b-c");
    assert_eq!(dash_separators("a\\b/c"), "a-b-c");
}
