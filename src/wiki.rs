use vstd::prelude::*;
use vstd::string::*;
use crate::outline::{leading_spaces, leaf_lines, leaves, lines_view, parse, parse_outline, law_parse_keeps_order};
use crate::sidebar::{law_sidebar_keeps_indent, flat_entry, keep_link_shaped, link_lines, progression_of, reading_order, sidebar_doc, sidebar_entries, sidebar_text, split_lines};

verus! {

/// Where a conversion reads the book from and writes the wiki to.
pub struct Builder {
    name: String,
    source: String,
}

impl Builder {
    pub closed spec fn spec_name(&self) -> Seq<char> {
        self.name@
    }

    pub closed spec fn spec_source(&self) -> Seq<char> {
        self.source@
    }

    /// A builder that reads `book` and writes `wiki`.
    pub fn new() -> (r: Builder)
        ensures
            r.spec_name() == "wiki"@,
            r.spec_source() == "book"@,
    {
        Builder { name: String::from_str("wiki"), source: String::from_str("book") }
    }

    /// Sets the destination directory.
    pub fn set_name(self, name: &str) -> (r: Self)
        ensures
            r.spec_name() == name@,
            r.spec_source() == self.spec_source(),
    {
        Builder { name: String::from_str(name), source: self.source }
    }

    /// Sets the source root directory.
    pub fn set_source(self, source: &str) -> (r: Self)
        ensures
            r.spec_source() == source@,
            r.spec_name() == self.spec_name(),
    {
        Builder { name: self.name, source: String::from_str(source) }
    }

    /// The destination directory.
    pub fn name(&self) -> (r: &str)
        ensures
            r@ == self.spec_name(),
    {
        self.name.as_str()
    }

    /// The source root directory.
    pub fn source(&self) -> (r: &str)
        ensures
            r@ == self.spec_source(),
    {
        self.source.as_str()
    }

    /// The content root: `<source>/src`.
    pub fn content_root(&self) -> (r: String)
        ensures
            r@ == self.spec_source() + "/src"@,
    {
        let mut out = String::from_str(self.source.as_str());
        out.append("/src");
        out
    }

    /// The table of contents: `<source>/src/SUMMARY.md`.
    pub fn summary_path(&self) -> (r: String)
        ensures
            r@ == self.spec_source() + "/src/SUMMARY.md"@,
    {
        let mut out = String::from_str(self.source.as_str());
        out.append("/src/SUMMARY.md");
        out
    }

    /// The sidebar file: `<name>/_Sidebar.md`.
    pub fn sidebar_path(&self) -> (r: String)
        ensures
            r@ == self.spec_name() + "/_Sidebar.md"@,
    {
        let mut out = String::from_str(self.name.as_str());
        out.append("/_Sidebar.md");
        out
    }

    /// The home page: `<name>/home.md`.
    pub fn home_path(&self) -> (r: String)
        ensures
            r@ == self.spec_name() + "/home.md"@,
    {
        let mut out = String::from_str(self.name.as_str());
        out.append("/home.md");
        out
    }
}

/// The file name of the table of contents inside the content root.
pub const SUMMARY_FILE: &'static str = "SUMMARY.md";

/// Whether a file of the content tree is the table of contents, which is not
/// copied to the wiki.
pub fn is_summary_file(file_name: &str) -> (r: bool)
    ensures
        r == (file_name@ == SUMMARY_FILE@),
{
    String::from_str(file_name) == String::from_str(SUMMARY_FILE)
}

/// What a table of contents yields: the sidebar text and the reading order.
pub struct Outline {
    pub sidebar: String,
    pub order: Vec<String>,
}

/// The link lines of a table of contents, in order.
pub open spec fn toc_lines(text: Seq<char>) -> Seq<Seq<char>> {
    keep_link_shaped(split_lines(text))
}

/// The sidebar lines of a table of contents: its hierarchy walked in
/// pre-order, each leaf flattened.
pub open spec fn sidebar_lines(text: Seq<char>) -> Seq<Seq<char>> {
    leaves(parse(toc_lines(text))).map_values(|l: Seq<char>| flat_entry(l))
}

/// Interprets a table of contents: keeps its link lines, builds their
/// hierarchy, and reads from it the sidebar and the reading order.
pub fn interpret(summary: &str) -> (r: Outline)
    ensures
        r.sidebar@ == sidebar_doc(sidebar_lines(summary@)),
        lines_view(r.order) == reading_order(leaves(parse(toc_lines(summary@)))),
{
    let lines = link_lines(summary);
    let tree = parse_outline(&lines);
    let ordered = leaf_lines(&tree);
    let entries = sidebar_entries(&ordered);
    let sidebar = sidebar_text(&entries);
    let order = progression_of(&ordered);
    Outline { sidebar, order }
}

/// The sidebar lists the link lines of the table of contents in their
/// document order, each flattened; the reading order takes the bulleted ones
/// in that same order. Each sidebar line keeps the indentation of its link
/// line.
pub proof fn law_sidebar_keeps_order(text: Seq<char>)
    ensures
        sidebar_lines(text) == toc_lines(text).map_values(|l: Seq<char>| flat_entry(l)),
        reading_order(leaves(parse(toc_lines(text)))) == reading_order(toc_lines(text)),
        sidebar_lines(text).len() == toc_lines(text).len(),
        forall|i: int| 0 <= i < toc_lines(text).len() ==> leading_spaces(#[trigger] sidebar_lines(text)[i])
            == leading_spaces(toc_lines(text)[i]),
{
    law_parse_keeps_order(toc_lines(text));
    assert forall|i: int| 0 <= i < toc_lines(text).len() implies leading_spaces(#[trigger] sidebar_lines(text)[i])
        == leading_spaces(toc_lines(text)[i]) by {
        law_sidebar_keeps_indent(toc_lines(text)[i]);
    }
}

} // verus!
