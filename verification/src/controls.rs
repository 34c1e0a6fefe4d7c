//! The controls of a board as they are shown: the toolbar, the flyouts, the
//! menus and the colour picker, and what their entries do.
use crate::board::{deleted, only, WhiteboardView, BoardState, PickerTarget, Popups, Ui};
use crate::editing::style_selected;
use crate::keys::moves;
use crate::mindmap::{direction_of, meta_of, style_of_root};
use crate::press::popped;
use crate::scene::{items, Element, Item, MindMapConnectorStyle, MindMapRootDirection};
use crate::styles::{Format, RunStyle};
use crate::text::push_char;
use crate::tools::{group_face, group_tools, home, Tool, ToolGroup};
use crate::zorder::{restacked, ZOrder};
use vstd::prelude::*;

verus! {

/// Something in the toolbar. Where it can be active, that is said too.
#[derive(Clone, Copy, PartialEq, Eq, Debug, Structural)]
pub enum Button {
    Grip,
    Divider,
    Tool(Tool, bool),
    /// A group of tools, with the one that its button shows.
    Group(ToolGroup, Tool, bool),
    DirectionLabel,
    Direction(MindMapRootDirection, bool),
    ConnectorLabel,
    Connector(MindMapConnectorStyle, bool),
    Color(bool),
    Width(bool),
    Font(bool),
    Format(bool),
    Templates(bool),
    Undo,
    Redo,
    Delete,
}

/// A row of the context menu.
#[derive(Clone, Copy, PartialEq, Eq, Debug, Structural)]
pub enum MenuRow {
    Text,
    Divider,
    Front,
    Forward,
    Backward,
    Back,
    Copy,
    Cut,
    Paste,
    SaveTemplate,
}

/// What is left to the host after a row of the context menu was picked.
#[derive(Debug)]
pub enum MenuOutcome {
    /// The host may have to save.
    Done(bool),
    /// These elements go to the clipboard.
    Copy(Vec<Element>),
    /// These go to the clipboard, and left the board, which the host saves.
    Cut(Vec<Element>),
    /// The clipboard's elements are put on the board.
    Paste,
    /// The host keeps these elements as a template.
    SaveTemplate(Vec<Element>),
}

/// A [`MenuOutcome`] as a value.
pub enum MenuOutcomeView {
    Done(bool),
    Copy(Seq<Item>),
    Cut(Seq<Item>),
    Paste,
    SaveTemplate(Seq<Item>),
}

impl View for MenuOutcome {
    type V = MenuOutcomeView;

    open spec fn view(&self) -> MenuOutcomeView {
        match self {
            MenuOutcome::Done(save) => MenuOutcomeView::Done(*save),
            MenuOutcome::Copy(v) => MenuOutcomeView::Copy(items(v@)),
            MenuOutcome::Cut(v) => MenuOutcomeView::Cut(items(v@)),
            MenuOutcome::Paste => MenuOutcomeView::Paste,
            MenuOutcome::SaveTemplate(v) => MenuOutcomeView::SaveTemplate(items(v@)),
        }
    }
}

/// A row of the formatting menu.
#[derive(Clone, Copy, PartialEq, Eq, Debug, Structural)]
pub enum FormatRow {
    Toggle(Format),
    Highlight,
}

/// Which panels are shown beside the toolbar and the context menu.
#[derive(Clone, Copy, PartialEq, Eq, Debug, Structural)]
pub struct Panels {
    pub flyout: Option<ToolGroup>,
    pub format: bool,
    pub width: bool,
    pub font: bool,
    pub menu: bool,
    pub text_submenu: bool,
    pub picker: Option<PickerTarget>,
    pub templates: bool,
}

// --- What is meant ---

/// The root that is the only thing selected.
pub open spec fn selected_root(b: BoardState) -> Option<u64> {
    match crate::board::lone(b.selected) {
        Some(id) => match meta_of(b.scene.elements, id) {
            Some(m) => if m.parent is None {
                Some(id)
            } else {
                None
            },
            None => None,
        },
        None => None,
    }
}

/// A tool's button.
pub open spec fn tool_button(u: Ui, t: Tool) -> Button {
    Button::Tool(t, u.tool == t)
}

/// A group's button: it shows the active tool where that is in the group, and
/// is active then or while its flyout is open.
pub open spec fn group_button(u: Ui, g: ToolGroup) -> Button {
    let own = home(u.tool) == Some(g);
    Button::Group(
        g,
        if own {
            u.tool
        } else {
            group_face(g)
        },
        own || u.pop.open_group == Some(g),
    )
}

/// What the toolbar shows for a mind map.
pub open spec fn root_buttons(b: BoardState, root: u64) -> Seq<Button> {
    let d = direction_of(b.scene.elements, root);
    let s = style_of_root(b.scene.elements, root);
    seq![
        Button::Divider,
        Button::DirectionLabel,
        Button::Direction(MindMapRootDirection::Both, d == MindMapRootDirection::Both),
        Button::Direction(MindMapRootDirection::Right, d == MindMapRootDirection::Right),
        Button::Direction(MindMapRootDirection::Left, d == MindMapRootDirection::Left),
        Button::Divider,
        Button::ConnectorLabel,
        Button::Connector(
            MindMapConnectorStyle::Straight,
            s == MindMapConnectorStyle::Straight,
        ),
        Button::Connector(MindMapConnectorStyle::Bezier, s == MindMapConnectorStyle::Bezier),
        Button::Connector(
            MindMapConnectorStyle::Orthogonal,
            s == MindMapConnectorStyle::Orthogonal,
        ),
    ]
}

/// One button, or none.
pub open spec fn when(shown: bool, b: Button) -> Seq<Button> {
    if shown {
        seq![b]
    } else {
        Seq::empty()
    }
}

/// What the toolbar shows otherwise.
pub open spec fn drawing_buttons(u: Ui, has_fonts: bool) -> Seq<Button> {
    seq![Button::Color(u.pop.picker is Some), Button::Width(u.pop.width_open)] + when(
        has_fonts,
        Button::Font(u.pop.font_open),
    ) + when(u.edit.editing is Some, Button::Format(u.pop.format_flyout)) + seq![
        Button::Divider,
        group_button(u, ToolGroup::Shapes),
        group_button(u, ToolGroup::Lines),
        tool_button(u, Tool::Text),
        group_button(u, ToolGroup::PagesImages),
        Button::Templates(u.pop.templates_open),
    ]
}

/// The toolbar.
pub open spec fn toolbar_of(b: BoardState, has_fonts: bool) -> Seq<Button> {
    let head = seq![
        Button::Grip,
        Button::Divider,
        tool_button(b.ui, Tool::Pan),
        tool_button(b.ui, Tool::Select),
    ];
    let middle = match selected_root(b) {
        Some(root) => root_buttons(b, root),
        None => drawing_buttons(b.ui, has_fonts),
    };
    head + middle + seq![Button::Divider, Button::Undo, Button::Redo, Button::Delete]
}

/// The rows of the context menu: formatting while text is edited, what is done
/// with a selection, pasting, and keeping a template.
pub open spec fn menu_rows(b: BoardState, can_paste: bool, can_save: bool) -> Seq<MenuRow> {
    let chosen = b.selected.len() > 0;
    let none = Seq::<MenuRow>::empty();
    (if b.ui.edit.editing is Some {
        seq![MenuRow::Text, MenuRow::Divider]
    } else {
        none
    }) + (if chosen {
        seq![
            MenuRow::Front,
            MenuRow::Forward,
            MenuRow::Backward,
            MenuRow::Back,
            MenuRow::Divider,
            MenuRow::Copy,
            MenuRow::Cut,
        ]
    } else {
        none
    }) + (if can_paste {
        seq![MenuRow::Paste]
    } else {
        none
    }) + (if chosen && can_save {
        seq![MenuRow::Divider, MenuRow::SaveTemplate]
    } else {
        none
    })
}

/// What a row of the context menu says.
pub open spec fn row_label(r: MenuRow) -> Seq<char> {
    match r {
        MenuRow::Text => "Text"@,
        MenuRow::Divider => ""@,
        MenuRow::Front => "Bring to Front"@,
        MenuRow::Forward => "Bring Forward"@,
        MenuRow::Backward => "Send Backward"@,
        MenuRow::Back => "Send to Back"@,
        MenuRow::Copy => "Copy"@,
        MenuRow::Cut => "Cut"@,
        MenuRow::Paste => "Paste"@,
        MenuRow::SaveTemplate => "Save as template"@,
    }
}

/// The key beside a row of the context menu.
pub open spec fn row_key(r: MenuRow) -> Seq<char> {
    match r {
        MenuRow::Text => "▸"@,
        MenuRow::Front => "⌘⇧]"@,
        MenuRow::Forward => "⌘]"@,
        MenuRow::Backward => "⌘["@,
        MenuRow::Back => "⌘⇧["@,
        MenuRow::Copy => "⌘C"@,
        MenuRow::Cut => "⌘X"@,
        MenuRow::Paste => "⌘V"@,
        MenuRow::Divider | MenuRow::SaveTemplate => ""@,
    }
}

/// The move through the paint order that a row asks for.
pub open spec fn row_move(r: MenuRow) -> Option<ZOrder> {
    match r {
        MenuRow::Front => Some(ZOrder::ToFront),
        MenuRow::Forward => Some(ZOrder::Forward),
        MenuRow::Backward => Some(ZOrder::Backward),
        MenuRow::Back => Some(ZOrder::ToBack),
        _ => None,
    }
}

/// What a row of the context menu does.
pub open spec fn row_chosen(b: BoardState, r: MenuRow) -> (BoardState, MenuOutcomeView) {
    let c = popped(b, Popups { context_menu: false, ..b.ui.pop });
    let chosen = only(b.scene.elements, b.selected);
    match r {
        MenuRow::Text => (
            popped(b, Popups { ctx_text_sub: !b.ui.pop.ctx_text_sub, ..b.ui.pop }),
            MenuOutcomeView::Done(false),
        ),
        MenuRow::Divider => (b, MenuOutcomeView::Done(false)),
        MenuRow::Front | MenuRow::Forward | MenuRow::Backward | MenuRow::Back => {
            let op = row_move(r)->0;
            (restacked(c, op), MenuOutcomeView::Done(moves(c, op)))
        },
        MenuRow::Copy => if chosen.len() == 0 {
            (c, MenuOutcomeView::Done(false))
        } else {
            (c, MenuOutcomeView::Copy(chosen))
        },
        MenuRow::Cut => if chosen.len() == 0 {
            (c, MenuOutcomeView::Done(false))
        } else {
            (deleted(c), MenuOutcomeView::Cut(chosen))
        },
        MenuRow::Paste => (c, MenuOutcomeView::Paste),
        MenuRow::SaveTemplate => if chosen.len() == 0 {
            (c, MenuOutcomeView::Done(false))
        } else {
            (c, MenuOutcomeView::SaveTemplate(chosen))
        },
    }
}

/// The rows of the formatting menu, and which are ticked.
pub open spec fn format_rows(st: RunStyle) -> Seq<(FormatRow, bool)> {
    seq![
        (FormatRow::Toggle(Format::Bold), st.bold),
        (FormatRow::Toggle(Format::Italic), st.italic),
        (FormatRow::Toggle(Format::Underline), st.underline),
        (FormatRow::Toggle(Format::Strike), st.strike),
        (FormatRow::Highlight, st.highlight is Some),
    ]
}

/// What a row of the formatting menu says.
pub open spec fn format_label(r: FormatRow) -> Seq<char> {
    match r {
        FormatRow::Toggle(Format::Bold) => "Bold"@,
        FormatRow::Toggle(Format::Italic) => "Italic"@,
        FormatRow::Toggle(Format::Underline) => "Underline"@,
        FormatRow::Toggle(Format::Strike) => "Strikethrough"@,
        FormatRow::Highlight => "Highlight"@,
    }
}

/// The key beside a row of the formatting menu.
pub open spec fn format_key(r: FormatRow) -> Seq<char> {
    match r {
        FormatRow::Toggle(Format::Bold) => "⌘B"@,
        FormatRow::Toggle(Format::Italic) => "⌘I"@,
        FormatRow::Toggle(Format::Underline) => "⌘U"@,
        FormatRow::Toggle(Format::Strike) => "⇧⌘X"@,
        FormatRow::Highlight => "⇧⌘H"@,
    }
}

/// Which panels are shown.
pub open spec fn panels_of(u: Ui, has_fonts: bool) -> Panels {
    let editing = u.edit.editing is Some;
    Panels {
        flyout: u.pop.open_group,
        format: editing && u.pop.format_flyout,
        width: u.pop.width_open,
        font: u.pop.font_open && has_fonts,
        menu: u.pop.context_menu,
        text_submenu: u.pop.context_menu && u.pop.ctx_text_sub && editing,
        picker: u.pop.picker,
        templates: u.pop.templates_open,
    }
}

/// What the button that clears a colour says: a fill goes, the other colours
/// follow the theme again.
pub open spec fn reset_label(t: PickerTarget) -> Seq<char> {
    match t {
        PickerTarget::Fill => "None"@,
        _ => "Auto"@,
    }
}

/// A hexadecimal digit.
pub open spec fn hex_digit(n: int) -> char {
    if n < 10 {
        (n + 48) as char
    } else {
        (n + 55) as char
    }
}

/// The lowest `k` hexadecimal digits of a number.
pub open spec fn hex_of(n: int, k: nat) -> Seq<char>
    decreases k,
{
    if k == 0 {
        Seq::empty()
    } else {
        hex_of(n / 16, (k - 1) as nat).push(hex_digit(n % 16))
    }
}

/// A colour's red, green and blue as the picker writes them.
pub open spec fn hex_color(c: u32) -> Seq<char> {
    seq!['#'] + hex_of(c as int / 256, 6)
}

// --- How it is done ---

impl WhiteboardView {
    fn tool_button(&self, t: Tool) -> (r: Button)
        ensures
            r == tool_button(self@.ui, t),
    {
        Button::Tool(t, self.ui.tool == t)
    }

    fn group_button(&self, g: ToolGroup) -> (r: Button)
        ensures
            r == group_button(self@.ui, g),
    {
        let own = g.contains(self.ui.tool);
        let face = if own {
            self.ui.tool
        } else {
            g.representative()
        };
        Button::Group(g, face, own || self.ui.pop.open_group == Some(g))
    }

    fn push_root_buttons(&self, out: &mut Vec<Button>, root: u64)
        ensures
            final(out)@ == old(out)@ + root_buttons(self@, root),
    {
        let d = self.mindmap_root_direction(root);
        let s = self.mindmap_connector_style_for_root(root);
        let ghost before = out@;
        out.push(Button::Divider);
        out.push(Button::DirectionLabel);
        out.push(Button::Direction(MindMapRootDirection::Both, d == MindMapRootDirection::Both));
        out.push(Button::Direction(MindMapRootDirection::Right, d == MindMapRootDirection::Right));
        out.push(Button::Direction(MindMapRootDirection::Left, d == MindMapRootDirection::Left));
        out.push(Button::Divider);
        out.push(Button::ConnectorLabel);
        out.push(
            Button::Connector(
                MindMapConnectorStyle::Straight,
                s == MindMapConnectorStyle::Straight,
            ),
        );
        out.push(
            Button::Connector(MindMapConnectorStyle::Bezier, s == MindMapConnectorStyle::Bezier),
        );
        out.push(
            Button::Connector(
                MindMapConnectorStyle::Orthogonal,
                s == MindMapConnectorStyle::Orthogonal,
            ),
        );
        assert(out@ =~= before + root_buttons(self@, root));
    }

    fn push_drawing_buttons(&self, out: &mut Vec<Button>, has_fonts: bool)
        ensures
            final(out)@ == old(out)@ + drawing_buttons(self@.ui, has_fonts),
    {
        let ghost before = out@;
        out.push(Button::Color(self.ui.pop.picker.is_some()));
        out.push(Button::Width(self.ui.pop.width_open));
        if has_fonts {
            out.push(Button::Font(self.ui.pop.font_open));
        }
        if self.ui.edit.editing.is_some() {
            out.push(Button::Format(self.ui.pop.format_flyout));
        }
        out.push(Button::Divider);
        out.push(self.group_button(ToolGroup::Shapes));
        out.push(self.group_button(ToolGroup::Lines));
        out.push(self.tool_button(Tool::Text));
        out.push(self.group_button(ToolGroup::PagesImages));
        out.push(Button::Templates(self.ui.pop.templates_open));
        assert(out@ =~= before + drawing_buttons(self@.ui, has_fonts));
    }

    /// The toolbar, in order. A root that is selected shows what its map can do
    /// in the place of the drawing tools.
    pub fn toolbar(&self, has_fonts: bool) -> (r: Vec<Button>)
        ensures
            r@ == toolbar_of(self@, has_fonts),
    {
        let mut out: Vec<Button> = Vec::new();
        out.push(Button::Grip);
        out.push(Button::Divider);
        out.push(self.tool_button(Tool::Pan));
        out.push(self.tool_button(Tool::Select));
        let ghost head = out@;
        match self.selected_mindmap_root() {
            Some(root) => {
                self.push_root_buttons(&mut out, root);
            },
            None => {
                self.push_drawing_buttons(&mut out, has_fonts);
            },
        }
        let ghost body = out@;
        out.push(Button::Divider);
        out.push(Button::Undo);
        out.push(Button::Redo);
        out.push(Button::Delete);
        proof {
            let tail = seq![Button::Divider, Button::Undo, Button::Redo, Button::Delete];
            assert(head =~= seq![
                Button::Grip,
                Button::Divider,
                tool_button(self@.ui, Tool::Pan),
                tool_button(self@.ui, Tool::Select),
            ]);
            assert(out@ =~= body + tail);
            assert(out@ =~= toolbar_of(self@, has_fonts));
        }
        out
    }

    /// Which panels are shown.
    pub fn panels(&self, has_fonts: bool) -> (r: Panels)
        ensures
            r == panels_of(self@.ui, has_fonts),
    {
        let p = self.ui.pop;
        let editing = self.ui.edit.editing.is_some();
        Panels {
            flyout: p.open_group,
            format: editing && p.format_flyout,
            width: p.width_open,
            font: p.font_open && has_fonts,
            menu: p.context_menu,
            text_submenu: p.context_menu && p.ctx_text_sub && editing,
            picker: p.picker,
            templates: p.templates_open,
        }
    }

    /// The rows of the context menu.
    pub fn menu(&self, can_paste: bool, can_save: bool) -> (r: Vec<MenuRow>)
        ensures
            r@ == menu_rows(self@, can_paste, can_save),
    {
        let mut out: Vec<MenuRow> = Vec::new();
        let chosen = self.selected.len() > 0;
        if self.ui.edit.editing.is_some() {
            out.push(MenuRow::Text);
            out.push(MenuRow::Divider);
        }
        if chosen {
            out.push(MenuRow::Front);
            out.push(MenuRow::Forward);
            out.push(MenuRow::Backward);
            out.push(MenuRow::Back);
            out.push(MenuRow::Divider);
            out.push(MenuRow::Copy);
            out.push(MenuRow::Cut);
        }
        if can_paste {
            out.push(MenuRow::Paste);
        }
        if chosen && can_save {
            out.push(MenuRow::Divider);
            out.push(MenuRow::SaveTemplate);
        }
        assert(out@ =~= menu_rows(self@, can_paste, can_save));
        out
    }

    fn close_menu(&mut self)
        ensures
            final(self)@ == popped(
                old(self)@,
                Popups { context_menu: false, ..old(self)@.ui.pop },
            ),
    {
        self.ui.pop.context_menu = false;
    }

    fn toggle_text_submenu(&mut self)
        ensures
            final(self)@ == popped(
                old(self)@,
                Popups { ctx_text_sub: !old(self)@.ui.pop.ctx_text_sub, ..old(self)@.ui.pop },
            ),
    {
        self.ui.pop.ctx_text_sub = !self.ui.pop.ctx_text_sub;
    }

    fn move_chosen(&mut self, op: ZOrder) -> (save: bool)
        ensures
            ({
                let c = popped(old(self)@, Popups { context_menu: false, ..old(self)@.ui.pop });
                final(self)@ == restacked(c, op) && save == moves(c, op)
            }),
    {
        self.close_menu();
        self.reorder_selection(op)
    }

    fn cut_chosen(&mut self) -> (r: MenuOutcome)
        ensures
            (final(self)@, r@) == row_chosen(old(self)@, MenuRow::Cut),
    {
        self.close_menu();
        match self.selection() {
            Some(v) => {
                let _save = self.delete_selected();
                MenuOutcome::Cut(v)
            },
            None => MenuOutcome::Done(false),
        }
    }

    /// What a row of the context menu does.
    #[verifier::rlimit(40)]
    pub fn choose_row(&mut self, row: MenuRow) -> (r: MenuOutcome)
        ensures
            (final(self)@, r@) == row_chosen(old(self)@, row),
    {
        match row {
            MenuRow::Text => {
                self.toggle_text_submenu();
                MenuOutcome::Done(false)
            },
            MenuRow::Divider => MenuOutcome::Done(false),
            MenuRow::Front => MenuOutcome::Done(self.move_chosen(ZOrder::ToFront)),
            MenuRow::Forward => MenuOutcome::Done(self.move_chosen(ZOrder::Forward)),
            MenuRow::Backward => MenuOutcome::Done(self.move_chosen(ZOrder::Backward)),
            MenuRow::Back => MenuOutcome::Done(self.move_chosen(ZOrder::ToBack)),
            MenuRow::Copy => {
                self.close_menu();
                match self.selection() {
                    Some(v) => MenuOutcome::Copy(v),
                    None => MenuOutcome::Done(false),
                }
            },
            MenuRow::Cut => self.cut_chosen(),
            MenuRow::Paste => {
                self.close_menu();
                MenuOutcome::Paste
            },
            MenuRow::SaveTemplate => {
                self.close_menu();
                match self.selection() {
                    Some(v) => MenuOutcome::SaveTemplate(v),
                    None => MenuOutcome::Done(false),
                }
            },
        }
    }

    /// The rows of the formatting menu, and which are ticked.
    pub fn format_menu(&self) -> (r: Vec<(FormatRow, bool)>)
        ensures
            r@ == format_rows(style_selected(self@)),
    {
        let st = self.selection_style();
        let r = vec![
            (FormatRow::Toggle(Format::Bold), st.bold),
            (FormatRow::Toggle(Format::Italic), st.italic),
            (FormatRow::Toggle(Format::Underline), st.underline),
            (FormatRow::Toggle(Format::Strike), st.strike),
            (FormatRow::Highlight, st.highlight.is_some()),
        ];
        assert(r@ =~= format_rows(st));
        r
    }

    /// Shows or hides the formatting flyout.
    pub fn toggle_format_flyout(&mut self)
        ensures
            final(self)@ == popped(
                old(self)@,
                Popups { format_flyout: !old(self)@.ui.pop.format_flyout, ..old(self)@.ui.pop },
            ),
    {
        self.ui.pop.format_flyout = !self.ui.pop.format_flyout;
    }

    /// Closes the template gallery.
    pub fn close_templates(&mut self)
        ensures
            final(self)@ == popped(
                old(self)@,
                Popups { templates_open: false, ..old(self)@.ui.pop },
            ),
    {
        self.ui.pop.templates_open = false;
    }

    /// Closes the font flyout.
    pub fn close_fonts(&mut self)
        ensures
            final(self)@ == popped(old(self)@, Popups { font_open: false, ..old(self)@.ui.pop }),
    {
        self.ui.pop.font_open = false;
    }

    /// Lays the toolbar out as a column or as a row.
    pub fn set_toolbar_vertical(&mut self, vertical: bool)
        ensures
            final(self)@ == (BoardState {
                ui: Ui { toolbar_vertical: vertical, ..old(self)@.ui },
                ..old(self)@
            }),
    {
        self.ui.toolbar_vertical = vertical;
    }
}

impl MenuRow {
    /// What the row says.
    pub fn label(self) -> (r: &'static str)
        ensures
            r@ == row_label(self),
    {
        match self {
            MenuRow::Text => "Text",
            MenuRow::Divider => "",
            MenuRow::Front => "Bring to Front",
            MenuRow::Forward => "Bring Forward",
            MenuRow::Backward => "Send Backward",
            MenuRow::Back => "Send to Back",
            MenuRow::Copy => "Copy",
            MenuRow::Cut => "Cut",
            MenuRow::Paste => "Paste",
            MenuRow::SaveTemplate => "Save as template",
        }
    }

    /// The key beside the row.
    pub fn key(self) -> (r: &'static str)
        ensures
            r@ == row_key(self),
    {
        match self {
            MenuRow::Text => "▸",
            MenuRow::Front => "⌘⇧]",
            MenuRow::Forward => "⌘]",
            MenuRow::Backward => "⌘[",
            MenuRow::Back => "⌘⇧[",
            MenuRow::Copy => "⌘C",
            MenuRow::Cut => "⌘X",
            MenuRow::Paste => "⌘V",
            MenuRow::Divider | MenuRow::SaveTemplate => "",
        }
    }
}

impl FormatRow {
    /// What the row says.
    pub fn label(self) -> (r: &'static str)
        ensures
            r@ == format_label(self),
    {
        match self {
            FormatRow::Toggle(Format::Bold) => "Bold",
            FormatRow::Toggle(Format::Italic) => "Italic",
            FormatRow::Toggle(Format::Underline) => "Underline",
            FormatRow::Toggle(Format::Strike) => "Strikethrough",
            FormatRow::Highlight => "Highlight",
        }
    }

    /// The key beside the row.
    pub fn key(self) -> (r: &'static str)
        ensures
            r@ == format_key(self),
    {
        match self {
            FormatRow::Toggle(Format::Bold) => "⌘B",
            FormatRow::Toggle(Format::Italic) => "⌘I",
            FormatRow::Toggle(Format::Underline) => "⌘U",
            FormatRow::Toggle(Format::Strike) => "⇧⌘X",
            FormatRow::Highlight => "⇧⌘H",
        }
    }
}

impl PickerTarget {
    /// What the button that clears the colour says.
    pub fn reset_label(self) -> (r: &'static str)
        ensures
            r@ == reset_label(self),
    {
        match self {
            PickerTarget::Fill => "None",
            _ => "Auto",
        }
    }
}

fn digit_of(n: u32) -> (r: char)
    requires
        n < 16,
    ensures
        r == hex_digit(n as int),
{
    let b: u8 = if n < 10 {
        (n + 48) as u8
    } else {
        (n + 55) as u8
    };
    b as char
}

fn push_hex(out: &mut String, n: u32, k: usize)
    ensures
        final(out)@ == old(out)@ + hex_of(n as int, k as nat),
    decreases k,
{
    if k > 0 {
        let ghost before = out@;
        push_hex(out, n / 16, k - 1);
        push_char(out, digit_of(n % 16));
        assert(out@ =~= before + hex_of(n as int, k as nat));
    } else {
        assert(out@ + Seq::<char>::empty() =~= out@);
    }
}

/// A colour's red, green and blue as the picker writes them.
pub fn color_hex(c: u32) -> (r: String)
    ensures
        r@ == hex_color(c),
{
    let mut out = String::new();
    push_char(&mut out, '#');
    push_hex(&mut out, c / 256, 6);
    assert(out@ =~= hex_color(c));
    out
}

// --- What holds of it ---

/// Every tool can be reached: it has a button in the bar, or one in the flyout
/// of a group that has a button there.
pub proof fn law_every_tool_is_reachable(u: Ui, has_fonts: bool, t: Tool)
    ensures
        match home(t) {
            Some(g) => drawing_buttons(u, has_fonts).contains(group_button(u, g))
                && group_tools(g).contains(t),
            None => t == Tool::Pan || t == Tool::Select || drawing_buttons(u, has_fonts).contains(
                tool_button(u, t),
            ),
        },
{
    let v = drawing_buttons(u, has_fonts);
    let n = v.len() as int;
    assert(v[n - 5] == group_button(u, ToolGroup::Shapes));
    assert(v[n - 4] == group_button(u, ToolGroup::Lines));
    assert(v[n - 3] == tool_button(u, Tool::Text));
    assert(v[n - 2] == group_button(u, ToolGroup::PagesImages));
    match home(t) {
        Some(g) => crate::tools::law_every_tool_has_one_home(t, g),
        None => {},
    }
}

/// Without a selection the menu offers nothing that needs one.
pub proof fn law_menu_fits_the_selection(b: BoardState, can_paste: bool, can_save: bool, i: int)
    requires
        b.selected.len() == 0,
        b.ui.edit.editing is None,
        0 <= i < menu_rows(b, can_paste, can_save).len(),
    ensures
        menu_rows(b, can_paste, can_save)[i] == MenuRow::Paste,
{
}

/// A written colour has a hash and six digits.
pub proof fn law_hex_has_six_digits(c: u32)
    ensures
        hex_color(c).len() == 7,
        hex_color(c)[0] == '#',
{
    lemma_hex_len(c as int / 256, 6);
}

proof fn lemma_hex_len(n: int, k: nat)
    ensures
        hex_of(n, k).len() == k,
    decreases k,
{
    if k > 0 {
        lemma_hex_len(n / 16, (k - 1) as nat);
    }
}

} // verus!
