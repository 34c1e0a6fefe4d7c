//! The whiteboard's tools and the groups that the toolbar shows them in.
use crate::text::{stands_at, str_is};
use vstd::prelude::*;

verus! {

/// What a press on the canvas does.
#[derive(Clone, Copy, PartialEq, Eq, Debug, Structural)]
pub enum Tool {
    /// Drags the canvas; a board opens with this one.
    Pan,
    Select,
    Pen,
    Rect,
    Ellipse,
    Diamond,
    Triangle,
    RoundRect,
    Star,
    Hexagon,
    Line,
    Arrow,
    DashedArrow,
    Text,
    MindMap,
    Flowchart,
    Embed,
    Image,
}

/// A category of tools that opens as a flyout.
#[derive(Clone, Copy, PartialEq, Eq, Debug, Structural)]
pub enum ToolGroup {
    /// The freehand pen and the closed shapes.
    Shapes,
    /// Line and arrow connectors.
    Lines,
    /// Diagrams, page cards and images.
    PagesImages,
}

/// A choice in the font flyout.
#[derive(Clone, Copy, PartialEq, Eq, Debug, Structural)]
pub enum FontPick {
    /// Pick a face from disk.
    Upload,
    /// Go back to the bundled face.
    Default,
}

/// Whether a board takes the scroll wheel.
pub fn accepts_wheel_input(read_only: bool) -> (r: bool)
    ensures
        r == !read_only,
{
    !read_only
}

/// The glyph on a tool's button where there is no icon.
pub open spec fn tool_glyph(t: Tool) -> Seq<char> {
    match t {
        Tool::Pan => "☞"@,
        Tool::Select => "↖"@,
        Tool::Pen => "✎"@,
        Tool::Rect => "▭"@,
        Tool::Ellipse => "◯"@,
        Tool::Diamond => "◇"@,
        Tool::Triangle => "△"@,
        Tool::RoundRect => "▢"@,
        Tool::Star => "☆"@,
        Tool::Hexagon => "⬡"@,
        Tool::Line => "╱"@,
        Tool::Arrow => "↗"@,
        Tool::DashedArrow => "⇢"@,
        Tool::Text => "T"@,
        Tool::MindMap => "◎"@,
        Tool::Flowchart => "⇅"@,
        Tool::Embed => "▤"@,
        Tool::Image => "▦"@,
    }
}

/// The tooltip of a tool's button.
pub open spec fn tool_label(t: Tool) -> Seq<char> {
    match t {
        Tool::Pan => "Pan — drag to move (H)"@,
        Tool::Select => "Select (V)"@,
        Tool::Pen => "Pen (P)"@,
        Tool::Rect => "Rectangle (R)"@,
        Tool::Ellipse => "Ellipse (O)"@,
        Tool::Diamond => "Diamond (D)"@,
        Tool::Triangle => "Triangle (G)"@,
        Tool::RoundRect => "Rounded rectangle (U)"@,
        Tool::Star => "Star (S)"@,
        Tool::Hexagon => "Hexagon (X)"@,
        Tool::Line => "Line (L)"@,
        Tool::Arrow => "Arrow (A)"@,
        Tool::DashedArrow => "Dashed arrow (K)"@,
        Tool::Text => "Text (T)"@,
        Tool::MindMap => "Mind map (M)"@,
        Tool::Flowchart => "Flowchart (F)"@,
        Tool::Embed => "Page card"@,
        Tool::Image => "Image (I) — click to place"@,
    }
}

/// The key that picks a tool.
pub open spec fn tool_key(t: Tool) -> Option<Seq<char>> {
    match t {
        Tool::Pan => Some("h"@),
        Tool::Select => Some("v"@),
        Tool::Pen => Some("p"@),
        Tool::Rect => Some("r"@),
        Tool::Ellipse => Some("o"@),
        Tool::Diamond => Some("d"@),
        Tool::Triangle => Some("g"@),
        Tool::RoundRect => Some("u"@),
        Tool::Star => Some("s"@),
        Tool::Hexagon => Some("x"@),
        Tool::Line => Some("l"@),
        Tool::Arrow => Some("a"@),
        Tool::DashedArrow => Some("k"@),
        Tool::Text => Some("t"@),
        Tool::MindMap => Some("m"@),
        Tool::Flowchart => Some("f"@),
        Tool::Embed => None,
        Tool::Image => Some("i"@),
    }
}

/// The name of a tool's icon. A dashed arrow has none.
pub open spec fn tool_icon(t: Tool) -> Option<Seq<char>> {
    match t {
        Tool::Pan => Some("wb-icon-pan"@),
        Tool::Select => Some("wb-icon-select"@),
        Tool::Pen => Some("wb-icon-pen"@),
        Tool::Rect => Some("wb-icon-rect"@),
        Tool::Ellipse => Some("wb-icon-ellipse"@),
        Tool::Diamond => Some("wb-icon-diamond"@),
        Tool::Triangle => Some("wb-icon-triangle"@),
        Tool::RoundRect => Some("wb-icon-round-rect"@),
        Tool::Star => Some("wb-icon-star"@),
        Tool::Hexagon => Some("wb-icon-hexagon"@),
        Tool::Line => Some("wb-icon-line"@),
        Tool::Arrow => Some("wb-icon-arrow"@),
        Tool::DashedArrow => None,
        Tool::Text => Some("wb-icon-text"@),
        Tool::MindMap => Some("wb-icon-mindmap"@),
        Tool::Flowchart => Some("wb-icon-flowchart"@),
        Tool::Embed => Some("wb-icon-embed"@),
        Tool::Image => Some("wb-icon-image"@),
    }
}

/// The tools in a group's flyout, in order.
pub open spec fn group_tools(g: ToolGroup) -> Seq<Tool> {
    match g {
        ToolGroup::Shapes => seq![
            Tool::Pen,
            Tool::Rect,
            Tool::RoundRect,
            Tool::Ellipse,
            Tool::Diamond,
            Tool::Triangle,
            Tool::Hexagon,
            Tool::Star,
        ],
        ToolGroup::Lines => seq![Tool::Line, Tool::Arrow, Tool::DashedArrow],
        ToolGroup::PagesImages => seq![Tool::MindMap, Tool::Flowchart, Tool::Embed, Tool::Image],
    }
}

/// The group that a tool's button is found in; the others stand in the bar.
pub open spec fn home(t: Tool) -> Option<ToolGroup> {
    match t {
        Tool::Pan | Tool::Select | Tool::Text => None,
        Tool::Line | Tool::Arrow | Tool::DashedArrow => Some(ToolGroup::Lines),
        Tool::MindMap | Tool::Flowchart | Tool::Embed | Tool::Image => Some(ToolGroup::PagesImages),
        _ => Some(ToolGroup::Shapes),
    }
}

/// The tool that a group's button shows while none of its tools is active.
pub open spec fn group_face(g: ToolGroup) -> Tool {
    match g {
        ToolGroup::Shapes => Tool::Rect,
        ToolGroup::Lines => Tool::Arrow,
        ToolGroup::PagesImages => Tool::Flowchart,
    }
}

/// The tooltip of a group's button.
pub open spec fn group_label(g: ToolGroup) -> Seq<char> {
    match g {
        ToolGroup::Shapes => "Shapes"@,
        ToolGroup::Lines => "Lines"@,
        ToolGroup::PagesImages => "Pages & images"@,
    }
}

impl Tool {
    /// The glyph on the button where there is no icon.
    pub fn glyph(self) -> (r: &'static str)
        ensures
            r@ == tool_glyph(self),
    {
        match self {
            Tool::Pan => "☞",
            Tool::Select => "↖",
            Tool::Pen => "✎",
            Tool::Rect => "▭",
            Tool::Ellipse => "◯",
            Tool::Diamond => "◇",
            Tool::Triangle => "△",
            Tool::RoundRect => "▢",
            Tool::Star => "☆",
            Tool::Hexagon => "⬡",
            Tool::Line => "╱",
            Tool::Arrow => "↗",
            Tool::DashedArrow => "⇢",
            Tool::Text => "T",
            Tool::MindMap => "◎",
            Tool::Flowchart => "⇅",
            Tool::Embed => "▤",
            Tool::Image => "▦",
        }
    }

    /// The tooltip, with the key where there is one.
    pub fn label(self) -> (r: &'static str)
        ensures
            r@ == tool_label(self),
    {
        match self {
            Tool::Pan => "Pan — drag to move (H)",
            Tool::Select => "Select (V)",
            Tool::Pen => "Pen (P)",
            Tool::Rect => "Rectangle (R)",
            Tool::Ellipse => "Ellipse (O)",
            Tool::Diamond => "Diamond (D)",
            Tool::Triangle => "Triangle (G)",
            Tool::RoundRect => "Rounded rectangle (U)",
            Tool::Star => "Star (S)",
            Tool::Hexagon => "Hexagon (X)",
            Tool::Line => "Line (L)",
            Tool::Arrow => "Arrow (A)",
            Tool::DashedArrow => "Dashed arrow (K)",
            Tool::Text => "Text (T)",
            Tool::MindMap => "Mind map (M)",
            Tool::Flowchart => "Flowchart (F)",
            Tool::Embed => "Page card",
            Tool::Image => "Image (I) — click to place",
        }
    }

    /// The tool that a key picks.
    pub fn shortcut(key: &str) -> (r: Option<Tool>)
        ensures
            r matches Some(t) ==> tool_key(t) == Some(key@),
            r is None ==> forall|t: Tool| #[trigger] tool_key(t) != Some(key@),
    {
        if str_is(key, "h") {
            Some(Tool::Pan)
        } else if str_is(key, "v") {
            Some(Tool::Select)
        } else if str_is(key, "p") {
            Some(Tool::Pen)
        } else if str_is(key, "r") {
            Some(Tool::Rect)
        } else if str_is(key, "o") {
            Some(Tool::Ellipse)
        } else if str_is(key, "d") {
            Some(Tool::Diamond)
        } else if str_is(key, "g") {
            Some(Tool::Triangle)
        } else if str_is(key, "u") {
            Some(Tool::RoundRect)
        } else if str_is(key, "s") {
            Some(Tool::Star)
        } else if str_is(key, "x") {
            Some(Tool::Hexagon)
        } else if str_is(key, "l") {
            Some(Tool::Line)
        } else if str_is(key, "a") {
            Some(Tool::Arrow)
        } else if str_is(key, "k") {
            Some(Tool::DashedArrow)
        } else if str_is(key, "t") {
            Some(Tool::Text)
        } else if str_is(key, "m") {
            Some(Tool::MindMap)
        } else if str_is(key, "f") {
            Some(Tool::Flowchart)
        } else if str_is(key, "i") {
            Some(Tool::Image)
        } else {
            None
        }
    }

    /// The name of the icon on the button; `None` falls back to the glyph.
    pub fn icon(self) -> (r: Option<&'static str>)
        ensures
            r matches Some(s) ==> tool_icon(self) == Some(s@),
            r is None ==> tool_icon(self) is None,
    {
        match self {
            Tool::Pan => Some("wb-icon-pan"),
            Tool::Select => Some("wb-icon-select"),
            Tool::Pen => Some("wb-icon-pen"),
            Tool::Rect => Some("wb-icon-rect"),
            Tool::Ellipse => Some("wb-icon-ellipse"),
            Tool::Diamond => Some("wb-icon-diamond"),
            Tool::Triangle => Some("wb-icon-triangle"),
            Tool::RoundRect => Some("wb-icon-round-rect"),
            Tool::Star => Some("wb-icon-star"),
            Tool::Hexagon => Some("wb-icon-hexagon"),
            Tool::Line => Some("wb-icon-line"),
            Tool::Arrow => Some("wb-icon-arrow"),
            Tool::DashedArrow => None,
            Tool::Text => Some("wb-icon-text"),
            Tool::MindMap => Some("wb-icon-mindmap"),
            Tool::Flowchart => Some("wb-icon-flowchart"),
            Tool::Embed => Some("wb-icon-embed"),
            Tool::Image => Some("wb-icon-image"),
        }
    }
}

impl ToolGroup {
    /// The tools in the flyout, in order.
    pub fn tools(self) -> (r: Vec<Tool>)
        ensures
            r@ == group_tools(self),
    {
        match self {
            ToolGroup::Shapes => vec![
                Tool::Pen,
                Tool::Rect,
                Tool::RoundRect,
                Tool::Ellipse,
                Tool::Diamond,
                Tool::Triangle,
                Tool::Hexagon,
                Tool::Star,
            ],
            ToolGroup::Lines => vec![Tool::Line, Tool::Arrow, Tool::DashedArrow],
            ToolGroup::PagesImages => vec![
                Tool::MindMap,
                Tool::Flowchart,
                Tool::Embed,
                Tool::Image,
            ],
        }
    }

    /// Whether the flyout holds `t`.
    pub fn contains(self, t: Tool) -> (r: bool)
        ensures
            r == group_tools(self).contains(t),
            r == (home(t) == Some(self)),
    {
        proof {
            lemma_home(self, t);
        }
        match self {
            ToolGroup::Shapes => match t {
                Tool::Pen | Tool::Rect | Tool::RoundRect | Tool::Ellipse | Tool::Diamond => true,
                Tool::Triangle | Tool::Hexagon | Tool::Star => true,
                _ => false,
            },
            ToolGroup::Lines => match t {
                Tool::Line | Tool::Arrow | Tool::DashedArrow => true,
                _ => false,
            },
            ToolGroup::PagesImages => match t {
                Tool::MindMap | Tool::Flowchart | Tool::Embed | Tool::Image => true,
                _ => false,
            },
        }
    }

    /// The tool that the button shows while none of the group is active.
    pub fn representative(self) -> (r: Tool)
        ensures
            r == group_face(self),
    {
        match self {
            ToolGroup::Shapes => Tool::Rect,
            ToolGroup::Lines => Tool::Arrow,
            ToolGroup::PagesImages => Tool::Flowchart,
        }
    }

    /// The tooltip of the button.
    pub fn label(self) -> (r: &'static str)
        ensures
            r@ == group_label(self),
    {
        match self {
            ToolGroup::Shapes => "Shapes",
            ToolGroup::Lines => "Lines",
            ToolGroup::PagesImages => "Pages & images",
        }
    }
}

proof fn lemma_home(g: ToolGroup, t: Tool)
    ensures
        group_tools(g).contains(t) == (home(t) == Some(g)),
{
    let s = group_tools(g);
    if home(t) == Some(g) {
        if g == ToolGroup::Shapes {
            assert(s[0] == t || s[1] == t || s[2] == t || s[3] == t || s[4] == t || s[5] == t
                || s[6] == t || s[7] == t);
        } else if g == ToolGroup::Lines {
            assert(s[0] == t || s[1] == t || s[2] == t);
        } else {
            assert(s[0] == t || s[1] == t || s[2] == t || s[3] == t);
        }
    }
}

/// Every tool is found in one place: three stand in the bar, and each of the
/// others is in the flyout of exactly one group.
pub proof fn law_every_tool_has_one_home(t: Tool, g: ToolGroup)
    ensures
        group_tools(g).contains(t) <==> home(t) == Some(g),
        home(t) is None <==> t == Tool::Pan || t == Tool::Select || t == Tool::Text,
{
    lemma_home(g, t);
}

/// A group's button shows a tool of the group.
pub proof fn law_face_is_in_the_group(g: ToolGroup)
    ensures
        group_tools(g).contains(group_face(g)),
{
    lemma_home(g, group_face(g));
}

/// No two tools share a key.
pub proof fn law_one_tool_per_key(a: Tool, b: Tool)
    requires
        tool_key(a) is Some,
        tool_key(a) == tool_key(b),
    ensures
        a == b,
{
    reveal_strlit("h");
    reveal_strlit("v");
    reveal_strlit("p");
    reveal_strlit("r");
    reveal_strlit("o");
    reveal_strlit("d");
    reveal_strlit("g");
    reveal_strlit("u");
    reveal_strlit("s");
    reveal_strlit("x");
    reveal_strlit("l");
    reveal_strlit("a");
    reveal_strlit("k");
    reveal_strlit("t");
    reveal_strlit("m");
    reveal_strlit("f");
    reveal_strlit("i");
    let p = tool_key(a)->0;
    let q = tool_key(b)->0;
    assert(p[0] == q[0]);
}

/// A key as a tooltip shows it.
pub open spec fn shown_key(key: Seq<char>) -> Seq<char> {
    seq!['(', (key[0] as u32 - 32) as char, ')']
}

/// The tooltip of a tool that has a key shows the key, in capitals.
pub proof fn law_label_shows_the_key(t: Tool)
    requires
        tool_key(t) is Some,
    ensures
        exists|i: int| #[trigger] stands_at(tool_label(t), i, shown_key(tool_key(t)->0)),
{
    let s = tool_label(t);
    let k = shown_key(tool_key(t)->0);
    let i: int = match t {
        Tool::Pan => 19,
        Tool::Image => 6,
        _ => s.len() - 3,
    };
    match t {
        Tool::Pan => {
            reveal_strlit("h");
            reveal_strlit("Pan — drag to move (H)");
        },
        Tool::Select => {
            reveal_strlit("v");
            reveal_strlit("Select (V)");
        },
        Tool::Pen => {
            reveal_strlit("p");
            reveal_strlit("Pen (P)");
        },
        Tool::Rect => {
            reveal_strlit("r");
            reveal_strlit("Rectangle (R)");
        },
        Tool::Ellipse => {
            reveal_strlit("o");
            reveal_strlit("Ellipse (O)");
        },
        Tool::Diamond => {
            reveal_strlit("d");
            reveal_strlit("Diamond (D)");
        },
        Tool::Triangle => {
            reveal_strlit("g");
            reveal_strlit("Triangle (G)");
        },
        Tool::RoundRect => {
            reveal_strlit("u");
            reveal_strlit("Rounded rectangle (U)");
        },
        Tool::Star => {
            reveal_strlit("s");
            reveal_strlit("Star (S)");
        },
        Tool::Hexagon => {
            reveal_strlit("x");
            reveal_strlit("Hexagon (X)");
        },
        Tool::Line => {
            reveal_strlit("l");
            reveal_strlit("Line (L)");
        },
        Tool::Arrow => {
            reveal_strlit("a");
            reveal_strlit("Arrow (A)");
        },
        Tool::DashedArrow => {
            reveal_strlit("k");
            reveal_strlit("Dashed arrow (K)");
        },
        Tool::Text => {
            reveal_strlit("t");
            reveal_strlit("Text (T)");
        },
        Tool::MindMap => {
            reveal_strlit("m");
            reveal_strlit("Mind map (M)");
        },
        Tool::Flowchart => {
            reveal_strlit("f");
            reveal_strlit("Flowchart (F)");
        },
        Tool::Embed => {},
        Tool::Image => {
            reveal_strlit("i");
            reveal_strlit("Image (I) — click to place");
        },
    }
    assert(s.subrange(i, i + 3) =~= k);
    assert(stands_at(s, i, k));
}

} // verus!
