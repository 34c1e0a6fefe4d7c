use inkpage::board::{ConnectPoint, Draft, EndpointDrag, PickerDrag, ResizeHandle, Resizing};
use inkpage::board::WhiteboardView;
use inkpage::diagrams::{diagram_layout, measure, Diagram, Measure, Term};
use inkpage::drags::{EndSnap, MoveStep, Release, Released, Scale};
use inkpage::layers::{Cursor, Focus, Layer, LocalThumbnailMode};
use inkpage::mindmap::Rank;
use inkpage::press::{CanvasPress, Edge, Grips, HandleGrab, PanelPress, Press, TextPress};
use inkpage::scene::{Element, ElementKind, MindMapConnectorStyle, MindMapRootDirection};
use inkpage::scene::{MindMapSide, Scene, Segment, SegmentAnchor, SegmentStyle};
use inkpage::tools::Tool;

fn element(id: u64, kind: ElementKind<String>) -> Element {
    Element {
        id,
        kind,
        place: id,
        stroke: None,
        fill: None,
        label: None,
        label_color: None,
        styles: vec![],
        mindmap: None,
    }
}

fn tie(element_id: u64) -> Option<SegmentAnchor> {
    Some(SegmentAnchor {
        element_id,
        connector: 1,
    })
}

/// A line between two elements.
fn line(id: u64, from: Option<SegmentAnchor>, to: Option<SegmentAnchor>) -> Element {
    element(
        id,
        ElementKind::Line(Segment {
            style: SegmentStyle::Solid,
            start_anchor: from,
            end_anchor: to,
        }),
    )
}

fn board(elements: Vec<Element>, tool: Tool) -> WhiteboardView {
    let mut b = WhiteboardView::new(Scene { camera: 0, elements });
    b.set_tool(tool);
    b
}

fn ids(b: &WhiteboardView) -> Vec<u64> {
    b.scene().elements.iter().map(|e| e.id).collect()
}

fn grips() -> Grips {
    Grips {
        rotate: false,
        corner: None,
        top: false,
        right: false,
        bottom: false,
        left: false,
        endpoint: None,
        tilted: false,
    }
}

/// A press on bare canvas, over these elements.
fn press(under: Vec<u64>) -> Press {
    Press {
        on_grip: false,
        on_toolbar: false,
        on_width_slider: false,
        on_width_panel: false,
        on_sv: false,
        on_hue: false,
        on_alpha: false,
        on_picker: false,
        control: false,
        shift: false,
        double: false,
        under,
        button: None,
        grips: grips(),
        place: 77,
    }
}

fn release(committable: bool, framed: Vec<u64>) -> Release {
    Release {
        committable,
        framed,
        place: 78,
    }
}

#[test]
fn a_press_on_an_element_selects_the_topmost() {
    let mut b = board(
        vec![element(1, ElementKind::Rect), element(2, ElementKind::Rect)],
        Tool::Select,
    );
    assert_eq!(b.press_canvas(&press(vec![1, 2])), CanvasPress::Move);
    assert_eq!(b.selected, vec![2]);
    assert_eq!(b.on_move(), MoveStep::Selection);
    assert!(matches!(
        b.on_left_up(&release(false, vec![])),
        Released::Done(false)
    ));
    assert!(matches!(b.on_move(), MoveStep::Hover { panning: false }));
}

#[test]
fn shift_adds_to_the_selection() {
    let mut b = board(
        vec![element(1, ElementKind::Rect), element(2, ElementKind::Rect)],
        Tool::Select,
    );
    b.selected = vec![1];
    let mut p = press(vec![2]);
    p.shift = true;
    b.press_canvas(&p);
    assert!(b.is_selected(1) && b.is_selected(2));
    b.press_canvas(&p);
    assert!(b.is_selected(1) && !b.is_selected(2));
}

#[test]
fn a_frame_selects_what_it_touches() {
    let mut b = board(vec![element(1, ElementKind::Rect)], Tool::Select);
    assert_eq!(b.press_canvas(&press(vec![])), CanvasPress::Selected);
    assert_eq!(b.on_move(), MoveStep::Marquee);
    b.on_left_up(&release(false, vec![1]));
    assert_eq!(b.selected, vec![1]);
}

#[test]
fn a_drag_of_the_selection_is_one_step() {
    let mut b = board(vec![element(1, ElementKind::Rect)], Tool::Select);
    b.press_canvas(&press(vec![1]));
    for place in 10..15 {
        let moved: Vec<(u64, u64)> = b.drag_selection().iter().map(|id| (*id, place)).collect();
        b.set_places(&moved);
    }
    assert_eq!(b.scene().elements[0].place, 14);
    assert!(matches!(
        b.on_left_up(&release(false, vec![])),
        Released::Done(true)
    ));
    assert!(b.undo());
    assert_eq!(b.scene().elements[0].place, 1);
    assert!(!b.undo());
}

#[test]
fn a_read_only_board_only_pans() {
    let mut b = board(vec![element(1, ElementKind::Rect)], Tool::Select);
    b.set_read_only(true);
    assert_eq!(b.press_panels(&press(vec![1])), PanelPress::Pan);
    assert!(matches!(b.on_move(), MoveStep::Hover { panning: true }));
    assert!(b.selected.is_empty());
}

#[test]
fn controls_take_their_presses() {
    let mut b = board(vec![], Tool::Select);
    let mut p = press(vec![]);
    p.on_grip = true;
    assert_eq!(b.press_panels(&p), PanelPress::DragToolbar);
    assert_eq!(b.on_move(), MoveStep::Toolbar);
    assert!(matches!(
        b.on_left_up(&release(false, vec![])),
        Released::Toolbar
    ));
    b.toggle_picker();
    let mut p = press(vec![]);
    p.on_picker = true;
    p.on_hue = true;
    assert_eq!(b.press_panels(&p), PanelPress::Slide(PickerDrag::Hue));
    assert_eq!(b.on_move(), MoveStep::Control(PickerDrag::Hue));
}

#[test]
fn drawing_a_shape_puts_it_on_the_board() {
    let mut b = board(vec![], Tool::Rect);
    assert_eq!(b.press_canvas(&press(vec![])), CanvasPress::Draw(Draft::Rect));
    assert_eq!(b.on_move(), MoveStep::Drawing(Draft::Rect));
    assert!(matches!(
        b.on_left_up(&release(true, vec![])),
        Released::Created { id: 0, .. }
    ));
    assert_eq!(b.scene().elements[0].kind, ElementKind::Rect);
    assert_eq!(b.scene().elements[0].place, 78);
    assert!(b.undo());
    assert!(ids(&b).is_empty());
    // A tiny drag is not kept.
    b.press_canvas(&press(vec![]));
    assert!(matches!(
        b.on_left_up(&release(false, vec![])),
        Released::Done(_)
    ));
    assert!(ids(&b).is_empty());
}

#[test]
fn the_text_tool_puts_a_text_down() {
    let mut b = board(vec![], Tool::Text);
    assert_eq!(b.press_canvas(&press(vec![])), CanvasPress::NewText(0));
    assert_eq!(b.editing_content(), Some(String::new()));
    // A press beside it ends the editing, and the empty text goes.
    assert_eq!(b.press_text(false), TextPress::Committed);
    assert!(ids(&b).is_empty());
    assert_eq!(b.press_text(false), TextPress::Nothing);
}

#[test]
fn a_double_press_edits_or_opens() {
    let mut b = board(
        vec![
            element(1, ElementKind::Text("hi".into())),
            element(
                2,
                ElementKind::Embed {
                    page_id: 44,
                    title: "Card".into(),
                },
            ),
        ],
        Tool::Select,
    );
    let mut p = press(vec![2]);
    p.double = true;
    assert_eq!(b.press_canvas(&p), CanvasPress::OpenPage(44));
    let mut p = press(vec![1]);
    p.double = true;
    assert_eq!(b.press_canvas(&p), CanvasPress::Edit(1));
    assert_eq!(b.press_text(true), TextPress::PlaceCaret(1));
}

#[test]
fn handles_belong_to_what_is_selected() {
    let mut b = board(
        vec![element(1, ElementKind::Rect), line(2, None, None)],
        Tool::Select,
    );
    let corner = Grips {
        corner: Some(2),
        ..grips()
    };
    assert_eq!(b.handle_hit(&corner), None);
    b.selected = vec![1];
    assert_eq!(b.handle_hit(&corner), Some(HandleGrab::Corner(1, 2)));
    let side = Grips {
        right: true,
        ..grips()
    };
    assert_eq!(b.handle_hit(&side), Some(HandleGrab::Side(1, Edge::Right)));
    b.selected = vec![2];
    let end = Grips {
        endpoint: Some(1),
        ..grips()
    };
    assert_eq!(b.handle_hit(&end), Some(HandleGrab::Endpoint(2, 1)));
    b.selected = vec![1, 2];
    assert_eq!(b.handle_hit(&corner), Some(HandleGrab::GroupCorner(2)));
}

#[test]
fn resizing_scales_as_the_handle_and_the_kind_say() {
    let b = board(
        vec![
            element(1, ElementKind::Rect),
            element(2, ElementKind::Image("x.png".into())),
        ],
        Tool::Select,
    );
    let corner = |id: u64| Resizing {
        id,
        handle: ResizeHandle::Corner,
    };
    assert_eq!(b.resize_scale(corner(1), false, false), Scale::Free);
    assert_eq!(b.resize_scale(corner(1), true, false), Scale::Proportional);
    let edge = Resizing {
        id: 1,
        handle: ResizeHandle::EdgeX,
    };
    assert_eq!(b.resize_scale(edge, false, false), Scale::Width);
}

#[test]
fn dragging_an_end_ties_and_unties_it() {
    let mut b = board(
        vec![element(1, ElementKind::Rect), line(2, None, None)],
        Tool::Select,
    );
    let ep = EndpointDrag { id: 2, which: 1 };
    let near = ConnectPoint { id: 1, index: 3 };
    assert_eq!(
        b.drag_endpoint(ep, false, false, Some((near, true))),
        EndSnap::Tied(near)
    );
    let tied = b.sync_segment_anchors_for(&vec![1]);
    assert_eq!((tied.len(), tied[0].id, tied[0].which), (1, 2, 1));
    assert_eq!(b.drag_endpoint(ep, true, false, None), EndSnap::Angle);
    assert!(b.sync_segment_anchors_for(&vec![1]).is_empty());
}

#[test]
fn moving_a_line_alone_loosens_it() {
    let mut b = board(
        vec![
            element(1, ElementKind::Rect),
            element(2, ElementKind::Rect),
            line(3, tie(1), tie(2)),
        ],
        Tool::Select,
    );
    // Together with both its ends it stays tied.
    b.detach_segment_bindings_for_move(&vec![1, 2, 3]);
    assert_eq!(b.sync_segment_anchors_for(&vec![1, 2]).len(), 2);
    b.detach_segment_bindings_for_move(&vec![3]);
    assert!(b.sync_segment_anchors_for(&vec![1, 2]).is_empty());
}

#[test]
fn the_middle_button_pans() {
    let mut b = board(vec![], Tool::Select);
    assert!(b.on_middle_down());
    assert_eq!(b.cursor(), Cursor::ClosedHand);
    b.set_camera(9);
    b.on_middle_up();
    assert_eq!(b.scene().camera, 9);
    assert_eq!(b.cursor(), Cursor::Arrow);
}

#[test]
fn a_mind_map_hangs_on_its_root() {
    let mut b = board(vec![], Tool::Select);
    b.add_mindmap_seed(100);
    assert_eq!(b.scene().elements.len(), 9);
    let root = b.mindmap_root_of(b.selected[0]).unwrap();
    assert!(b.is_mindmap_root(root));
    assert_eq!(b.mindmap_root_direction(root), MindMapRootDirection::Both);
    for e in &b.scene().elements {
        if b.is_mindmap_node(e.id) {
            assert_eq!(b.mindmap_root_of(e.id), Some(root));
        }
    }
    let left = b.mindmap_children(root, MindMapSide::Left).len();
    let right = b.mindmap_children(root, MindMapSide::Right).len();
    assert_eq!(left + right, 4);
    assert!(b.undo());
    assert!(ids(&b).is_empty());
}

#[test]
fn a_direction_sends_every_branch_to_its_side() {
    let mut b = board(vec![], Tool::Select);
    b.add_mindmap_seed(100);
    let root = b.mindmap_root_of(b.selected[0]).unwrap();
    let ranks: Vec<Rank> = ids(&b)
        .iter()
        .map(|id| Rank {
            id: *id,
            y: *id as i64,
            x: 0,
        })
        .collect();
    let all = b.ordered_mindmap_children(root, &ranks);
    let steps = b.set_mindmap_root_direction(root, MindMapRootDirection::Left, &ranks);
    assert!(b.mindmap_children(root, MindMapSide::Right).is_empty());
    let mut left = b.mindmap_children(root, MindMapSide::Left);
    left.sort();
    assert_eq!(left, all);
    assert!(steps.iter().all(|s| s.side == MindMapSide::Left));
    b.set_mindmap_connector_style(root, MindMapConnectorStyle::Straight);
    assert_eq!(
        b.mindmap_connector_style_for_root(root),
        MindMapConnectorStyle::Straight
    );
}

#[test]
fn a_new_node_goes_under_or_beside() {
    let mut b = board(vec![], Tool::Select);
    b.add_mindmap_seed(100);
    let root = b.mindmap_root_of(b.selected[0]).unwrap();
    let child = b.mindmap_children(root, MindMapSide::Right)[0];
    let (parent, side, order) = b.mindmap_slot(child, true).unwrap();
    assert_eq!((parent, side, order), (root, MindMapSide::Right, 1));
    let new = b.add_mindmap_relative(child, true, 200, 201).unwrap();
    assert_eq!(b.mindmap_children(root, MindMapSide::Right)[1], new);
    let below = b.add_mindmap_relative(child, false, 202, 203).unwrap();
    assert_eq!(b.mindmap_children(child, MindMapSide::Right), vec![below]);
    assert_eq!(b.add_mindmap_relative(9999, true, 204, 205), None);
}

#[test]
fn a_flowchart_is_linked_as_it_is_drawn() {
    let mut b = board(vec![], Tool::Select);
    b.add_flowchart_seed(100);
    assert_eq!(b.scene().elements.len(), 12);
    let nodes: Vec<u64> = ids(&b);
    for e in &b.scene().elements {
        if let ElementKind::Arrow(s) | ElementKind::Line(s) = &e.kind {
            assert!(nodes.contains(&s.start_anchor.unwrap().element_id));
            assert!(nodes.contains(&s.end_anchor.unwrap().element_id));
        }
    }
}

fn halves(d: Diagram, terms: &[Term]) -> i64 {
    terms
        .iter()
        .map(|t| {
            let n = t.halves as i64 * measure(d, t.of) as i64;
            if t.plus {
                n
            } else {
                -n
            }
        })
        .sum()
}

#[test]
fn the_nodes_of_a_diagram_lie_apart() {
    for d in [Diagram::MindMap, Diagram::Flowchart] {
        let boxes: Vec<[i64; 4]> = diagram_layout(d)
            .iter()
            .map(|n| {
                let (x, y) = (halves(d, &n.x), halves(d, &n.y));
                let (w, h) = (2 * measure(d, n.w) as i64, 2 * measure(d, n.h) as i64);
                [x, y, x + w, y + h]
            })
            .collect();
        for (i, a) in boxes.iter().enumerate() {
            for b in &boxes[i + 1..] {
                let apart = a[2] <= b[0] || b[2] <= a[0] || a[3] <= b[1] || b[3] <= a[1];
                assert!(apart, "{d:?}: {a:?} {b:?}");
            }
        }
    }
    assert!(measure(Diagram::MindMap, Measure::RootWidth) > 0);
}

#[test]
fn cards_and_images_break_the_canvas_into_layers() {
    let mut b = board(vec![element(1, ElementKind::Rect)], Tool::Select);
    b.add_embed(5, "Card".into(), 50);
    b.add_image_at("x.png".into(), 51);
    b.stamp_elements(vec![element(1, ElementKind::Star)]);
    let all = ids(&b);
    let layers = b.layers(&all);
    assert_eq!(layers.len(), 4);
    match &layers[0] {
        Layer::Band(v) => assert_eq!(v[0].id, 1),
        other => panic!("{other:?}"),
    }
    assert!(matches!(layers[1], Layer::Overlay { id: 2, index: 1 }));
    assert!(matches!(layers[2], Layer::Overlay { id: 3, index: 2 }));
    assert!(matches!(&layers[3], Layer::Band(v) if v[0].id == 4));
    // What is out of view is not painted.
    assert!(b.layers(&vec![]).is_empty());
}

#[test]
fn handles_show_for_what_is_selected() {
    let mut b = board(
        vec![element(1, ElementKind::Rect), element(2, ElementKind::Rect)],
        Tool::Select,
    );
    assert_eq!(b.chrome().single, None);
    b.selected = vec![1];
    assert_eq!(b.chrome().single, Some(1));
    b.selected = vec![1, 2];
    assert!(b.chrome().group);
    assert_eq!(b.chrome().single, None);
}

#[test]
fn a_thumbnail_shows_the_selection_first() {
    let mut b = board(vec![element(1, ElementKind::Rect)], Tool::Select);
    b.selected = vec![1];
    assert_eq!(
        b.thumbnail_focus(LocalThumbnailMode::Auto, true),
        Some(Focus::Selection(Some(1)))
    );
    b.selected = vec![];
    assert_eq!(
        b.thumbnail_focus(LocalThumbnailMode::Auto, true),
        Some(Focus::Viewport)
    );
    assert_eq!(b.thumbnail_focus(LocalThumbnailMode::Element(99), true), None);
}

#[test]
fn a_right_press_opens_the_menu() {
    let mut b = board(vec![element(1, ElementKind::Rect)], Tool::Select);
    b.on_right_down(false, true);
    assert!(b.panels(true).menu);
    b.press_panels(&press(vec![]));
    assert!(!b.panels(true).menu);
}

#[test]
fn a_line_is_dragged_from_side_to_side() {
    let mut b = board(
        vec![element(1, ElementKind::Rect), element(2, ElementKind::Rect)],
        Tool::Select,
    );
    b.selected = vec![1];
    assert!(b.update_hover_connector(Some(1)));
    assert!(!b.update_hover_connector(Some(1)));
    let mut p = press(vec![]);
    p.button = Some(1);
    let from = ConnectPoint { id: 1, index: 1 };
    assert_eq!(b.press_canvas(&p), CanvasPress::Connect(from));
    let to = ConnectPoint { id: 2, index: 3 };
    b.drag_connection(Some((to, true)));
    assert_eq!(b.on_move(), MoveStep::Connection(from));
    assert!(matches!(
        b.on_left_up(&release(true, vec![])),
        Released::Created { id: 3, focus: true }
    ));
    let tied = b.sync_segment_anchors_for(&vec![1, 2]);
    assert_eq!(tied.len(), 2);
}

#[test]
fn dragging_over_text_selects_it() {
    let mut b = board(vec![element(1, ElementKind::Text("hello".into()))], Tool::Select);
    b.begin_text_edit(1, 1);
    b.press_text(true);
    b.place_caret_from_click(1, 1, false, false);
    assert_eq!(b.on_move(), MoveStep::Text(1));
    b.drag_caret(4);
    assert_eq!(b.sel_range(), (1, 4));
}
