//! Authoring snippets for a command palette.
use vstd::prelude::*;

verus! {

/// An authoring snippet: a label, the text to insert, and the caret offset in
/// bytes within that text.
#[derive(PartialEq, Eq, Debug, Clone, Copy)]
pub struct Snippet {
    pub label: &'static str,
    pub snippet: &'static str,
    pub caret: usize,
}

/// The built-in snippets, as values.
pub open spec fn snippet_list() -> Seq<(Seq<char>, Seq<char>, int)> {
    seq![
        ("Heading 1"@, "# "@, 2),
        ("Heading 2"@, "## "@, 3),
        ("Heading 3"@, "### "@, 4),
        ("Bullet list"@, "- "@, 2),
        ("Numbered list"@, "1. "@, 3),
        ("To-do"@, "- [ ] "@, 6),
        ("Quote"@, "> "@, 2),
        ("Note alert"@, "> [!NOTE] "@, 10),
        ("Tip alert"@, "> [!TIP] "@, 9),
        ("Important alert"@, "> [!IMPORTANT] "@, 15),
        ("Warning alert"@, "> [!WARNING] "@, 13),
        ("Caution alert"@, "> [!CAUTION] "@, 13),
        ("Code block"@, "```\n\n```"@, 4),
        ("Mermaid diagram"@, "```mermaid\n\n```"@, 11),
        ("Math"@, "$$\n\n$$"@, 3),
        ("Table"@, "|  |  |\n| --- | --- |\n|  |  |\n"@, 2),
        ("Divider"@, "---\n"@, 4),
        ("Bold"@, "****"@, 2),
        ("Italic"@, "**"@, 1),
        ("Strikethrough"@, "~~~~"@, 2),
        ("Inline code"@, "``"@, 1),
        ("Inline math"@, "$$"@, 1),
        ("Highlight"@, "<mark></mark>"@, 6),
        ("Underline"@, "<u></u>"@, 3),
        ("Link"@, "[]()"@, 1),
        ("Wiki link"@, "[[]]"@, 2),
        ("Image"@, "![]()"@, 4),
    ]
}

/// Snippets as values.
pub open spec fn snippet_views(v: Seq<Snippet>) -> Seq<(Seq<char>, Seq<char>, int)> {
    v.map_values(|s: Snippet| (s.label@, s.snippet@, s.caret as int))
}

/// The built-in snippets: blocks first, then inline ones, whose caret lands
/// between the markers.
pub fn snippets() -> (r: Vec<Snippet>)
    ensures
        snippet_views(r@) == snippet_list(),
{
    let r = vec![
        Snippet { label: "Heading 1", snippet: "# ", caret: 2 },
        Snippet { label: "Heading 2", snippet: "## ", caret: 3 },
        Snippet { label: "Heading 3", snippet: "### ", caret: 4 },
        Snippet { label: "Bullet list", snippet: "- ", caret: 2 },
        Snippet { label: "Numbered list", snippet: "1. ", caret: 3 },
        Snippet { label: "To-do", snippet: "- [ ] ", caret: 6 },
        Snippet { label: "Quote", snippet: "> ", caret: 2 },
        Snippet { label: "Note alert", snippet: "> [!NOTE] ", caret: 10 },
        Snippet { label: "Tip alert", snippet: "> [!TIP] ", caret: 9 },
        Snippet { label: "Important alert", snippet: "> [!IMPORTANT] ", caret: 15 },
        Snippet { label: "Warning alert", snippet: "> [!WARNING] ", caret: 13 },
        Snippet { label: "Caution alert", snippet: "> [!CAUTION] ", caret: 13 },
        Snippet { label: "Code block", snippet: "```\n\n```", caret: 4 },
        Snippet { label: "Mermaid diagram", snippet: "```mermaid\n\n```", caret: 11 },
        Snippet { label: "Math", snippet: "$$\n\n$$", caret: 3 },
        Snippet { label: "Table", snippet: "|  |  |\n| --- | --- |\n|  |  |\n", caret: 2 },
        Snippet { label: "Divider", snippet: "---\n", caret: 4 },
        Snippet { label: "Bold", snippet: "****", caret: 2 },
        Snippet { label: "Italic", snippet: "**", caret: 1 },
        Snippet { label: "Strikethrough", snippet: "~~~~", caret: 2 },
        Snippet { label: "Inline code", snippet: "``", caret: 1 },
        Snippet { label: "Inline math", snippet: "$$", caret: 1 },
        Snippet { label: "Highlight", snippet: "<mark></mark>", caret: 6 },
        Snippet { label: "Underline", snippet: "<u></u>", caret: 3 },
        Snippet { label: "Link", snippet: "[]()", caret: 1 },
        Snippet { label: "Wiki link", snippet: "[[]]", caret: 2 },
        Snippet { label: "Image", snippet: "![]()", caret: 4 },
    ];
    assert(snippet_views(r@) =~= snippet_list());
    r
}

/// Every caret lies inside the text of its snippet.
pub proof fn law_carets_lie_inside(i: int)
    requires
        0 <= i < snippet_list().len(),
    ensures
        0 <= snippet_list()[i].2 <= snippet_list()[i].1.len(),
{
    reveal_strlit("# ");
    reveal_strlit("## ");
    reveal_strlit("### ");
    reveal_strlit("- ");
    reveal_strlit("1. ");
    reveal_strlit("- [ ] ");
    reveal_strlit("> ");
    reveal_strlit("> [!NOTE] ");
    reveal_strlit("> [!TIP] ");
    reveal_strlit("> [!IMPORTANT] ");
    reveal_strlit("> [!WARNING] ");
    reveal_strlit("> [!CAUTION] ");
    reveal_strlit("```\n\n```");
    reveal_strlit("```mermaid\n\n```");
    reveal_strlit("$$\n\n$$");
    reveal_strlit("|  |  |\n| --- | --- |\n|  |  |\n");
    reveal_strlit("---\n");
    reveal_strlit("****");
    reveal_strlit("**");
    reveal_strlit("~~~~");
    reveal_strlit("``");
    reveal_strlit("$$");
    reveal_strlit("<mark></mark>");
    reveal_strlit("<u></u>");
    reveal_strlit("[]()");
    reveal_strlit("[[]]");
    reveal_strlit("![]()");
}

} // verus!
