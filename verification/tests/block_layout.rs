use chromelight::dom::document::NodeId;
use chromelight::layout::au::Au;
use chromelight::layout::block::{
    flatten_inline_children, initial_style_id, layout, layout_boxes, line_groups, shift_fragments, split_into_groups, FragmentTree,
    InlineToken,
};
use chromelight::layout::box_dump::{box_dump_order, box_tree_dump, label};
use chromelight::layout::box_tree::{
    effective_margin_bottom, effective_margin_top, first_block_child, is_anonymous, is_block_container,
    is_block_level, last_block_child, BoxId, BoxKind, BoxTree, LayoutBox,
};
use chromelight::layout::fragment::{Fragment, FragmentKind, StyleId, Viewport};
use chromelight::layout::geom::{BoxSizing, Point, Rect, Sides, Size};
use chromelight::layout::resolve::UsedLengths;

fn px(v: i32) -> Au {
    Au(v * 60)
}

fn rect(x: i32, y: i32, w: i32, h: i32) -> Rect {
    Rect { origin: Point { x: px(x), y: px(y) }, size: Size { w: px(w), h: px(h) } }
}

fn viewport() -> Viewport {
    Viewport { size: Size { w: px(800), h: px(600) } }
}

/// Lengths with everything `auto` but the margins, which are 0.
fn lengths() -> UsedLengths {
    UsedLengths {
        width: None,
        height: None,
        min_width: Au(0),
        max_width: None,
        min_height: Au(0),
        max_height: None,
        margin: Sides::uniform(Some(Au(0))),
        padding: Sides::uniform(Au(0)),
        border: Sides::uniform(Au(0)),
        box_sizing: BoxSizing::ContentBox,
    }
}

fn with_height(h: i32) -> UsedLengths {
    UsedLengths { height: Some(px(h)), ..lengths() }
}

fn block(node: u32, l: UsedLengths, children: Vec<u32>) -> LayoutBox {
    LayoutBox {
        kind: BoxKind::Block,
        node: Some(NodeId(node)),
        style: StyleId(node),
        lengths: l,
        indefinite_height: l.height,
        indefinite_min_height: l.min_height,
        offset: None,
        line_height: px(19),
        children: children.into_iter().map(BoxId).collect(),
    }
}

/// A document whose root box (`<html>`, box 0) holds `<body>` (box 1, no margins), which
/// holds the boxes `body_children`; the remaining boxes follow from index 2.
fn document(body_children: Vec<u32>, rest: Vec<LayoutBox>) -> BoxTree {
    let mut boxes = vec![block(0, lengths(), vec![1]), block(1, lengths(), body_children)];
    boxes.extend(rest);
    BoxTree { boxes, root: BoxId(0) }
}

fn fragment_of(tree: &FragmentTree, node: u32) -> &Fragment {
    let mut stack = vec![tree.root];
    while let Some(id) = stack.pop() {
        if let Some(f) = tree.get(id) {
            if f.node == Some(NodeId(node)) {
                return f;
            }
            stack.extend(f.children.iter().copied());
        }
    }
    panic!("no fragment for node {node}");
}

#[test]
fn auto_width_should_fill_containing_block() {
    let tree = document(vec![2], vec![block(2, with_height(10), vec![])]);
    let out = layout_boxes(&tree, viewport());
    let target = fragment_of(&out, 2);
    assert_eq!(target.border_box, rect(0, 0, 800, 10));
    assert_eq!(target.content_box, rect(0, 0, 800, 10));
}

#[test]
fn fixed_width_with_auto_margins_should_center() {
    let mut l = with_height(10);
    l.width = Some(px(400));
    l.margin.left = None;
    l.margin.right = None;
    let tree = document(vec![2], vec![block(2, l, vec![])]);
    let out = layout_boxes(&tree, viewport());
    assert_eq!(fragment_of(&out, 2).border_box, rect(200, 0, 400, 10));
}

#[test]
fn percent_width_should_resolve_against_parent_content_box() {
    // The 50% of the 500px-wide parent arrives resolved, as 250px.
    let outer = UsedLengths { width: Some(px(500)), ..lengths() };
    let target = UsedLengths { width: Some(px(250)), ..with_height(10) };
    let tree = document(vec![2], vec![block(2, outer, vec![3]), block(3, target, vec![])]);
    let out = layout_boxes(&tree, viewport());
    assert_eq!(fragment_of(&out, 3).border_box, rect(0, 0, 250, 10));
}

#[test]
fn border_box_sizing_should_include_padding_and_border() {
    let l = UsedLengths {
        width: Some(px(300)),
        height: Some(px(100)),
        padding: Sides::uniform(px(10)),
        border: Sides::uniform(px(5)),
        box_sizing: BoxSizing::BorderBox,
        ..lengths()
    };
    let tree = document(vec![2], vec![block(2, l, vec![])]);
    let out = layout_boxes(&tree, viewport());
    let target = fragment_of(&out, 2);
    assert_eq!(target.border_box, rect(0, 0, 300, 100));
    assert_eq!(target.content_box, rect(15, 15, 270, 70));
}

#[test]
fn min_width_should_clamp_percent_result() {
    // 10% of the 200px-wide parent arrives resolved, as 20px; min-width wins.
    let outer = UsedLengths { width: Some(px(200)), ..lengths() };
    let target = UsedLengths { width: Some(px(20)), min_width: px(100), ..with_height(10) };
    let tree = document(vec![2], vec![block(2, outer, vec![3]), block(3, target, vec![])]);
    let out = layout_boxes(&tree, viewport());
    assert_eq!(fragment_of(&out, 3).border_box, rect(0, 0, 100, 10));
}

#[test]
fn max_height_should_clamp_auto_height() {
    let target = UsedLengths { width: Some(px(200)), max_height: Some(px(20)), ..lengths() };
    let tree = document(
        vec![2],
        vec![block(2, target, vec![3, 4]), block(3, with_height(30), vec![]), block(4, with_height(30), vec![])],
    );
    let out = layout_boxes(&tree, viewport());
    let t = fragment_of(&out, 2);
    assert_eq!(t.border_box, rect(0, 0, 200, 20));
    assert_eq!(t.content_box, rect(0, 0, 200, 20));
    assert_eq!(fragment_of(&out, 4).border_box, rect(0, 30, 200, 30));
}

#[test]
fn sibling_vertical_margins_should_collapse_to_max() {
    let mut first = with_height(10);
    first.margin.bottom = Some(px(20));
    let mut second = with_height(10);
    second.margin.top = Some(px(10));
    let tree = document(vec![2, 3], vec![block(2, first, vec![]), block(3, second, vec![])]);
    let out = layout_boxes(&tree, viewport());
    assert_eq!(fragment_of(&out, 2).border_box.origin, Point { x: px(0), y: px(0) });
    assert_eq!(fragment_of(&out, 3).border_box.origin, Point { x: px(0), y: px(30) });
}

#[test]
fn parent_and_first_child_top_margins_should_collapse() {
    let parent = UsedLengths { width: Some(px(200)), ..lengths() };
    let mut child = with_height(10);
    child.margin.top = Some(px(20));
    let tree = document(
        vec![2, 3],
        vec![block(2, with_height(10), vec![]), block(3, parent, vec![4]), block(4, child, vec![])],
    );
    let out = layout_boxes(&tree, viewport());
    assert_eq!(fragment_of(&out, 3).border_box.origin, Point { x: px(0), y: px(30) });
    assert_eq!(fragment_of(&out, 4).border_box.origin, Point { x: px(0), y: px(30) });
}

#[test]
fn padding_should_prevent_margin_collapsing() {
    let mut parent = UsedLengths { width: Some(px(200)), ..lengths() };
    parent.padding.top = px(5);
    let mut child = with_height(10);
    child.margin.top = Some(px(20));
    let tree = document(vec![2], vec![block(2, parent, vec![3]), block(3, child, vec![])]);
    let out = layout_boxes(&tree, viewport());
    assert_eq!(fragment_of(&out, 2).border_box.origin, Point { x: px(0), y: px(0) });
    assert_eq!(fragment_of(&out, 3).border_box.origin, Point { x: px(0), y: px(25) });
}

#[test]
fn relative_position_should_offset_fragment_only() {
    let mut b = block(3, with_height(10), vec![]);
    b.offset = Some(Sides { top: Some(px(5)), right: None, bottom: None, left: Some(px(3)) });
    let tree = document(
        vec![2, 3, 4],
        vec![block(2, with_height(10), vec![]), b, block(4, with_height(10), vec![])],
    );
    let out = layout_boxes(&tree, viewport());
    assert_eq!(fragment_of(&out, 2).border_box.origin, Point { x: px(0), y: px(0) });
    assert_eq!(fragment_of(&out, 3).border_box.origin, Point { x: px(3), y: px(15) });
    assert_eq!(fragment_of(&out, 4).border_box.origin, Point { x: px(0), y: px(20) });
}

#[test]
fn display_none_child_should_take_no_space() {
    // A `display: none` element generates no box: the tree simply does not hold it.
    let tree = document(vec![2, 3], vec![block(2, with_height(10), vec![]), block(3, with_height(10), vec![])]);
    let out = layout_boxes(&tree, viewport());
    assert_eq!(fragment_of(&out, 3).border_box.origin, Point { x: px(0), y: px(10) });
}

#[test]
fn nested_blocks_should_stack_vertically() {
    let outer = UsedLengths { width: Some(px(200)), ..lengths() };
    let tree = document(
        vec![2],
        vec![
            block(2, outer, vec![3, 4, 5]),
            block(3, with_height(10), vec![]),
            block(4, with_height(20), vec![]),
            block(5, with_height(30), vec![]),
        ],
    );
    let out = layout_boxes(&tree, viewport());
    assert_eq!(fragment_of(&out, 3).border_box.origin, Point { x: px(0), y: px(0) });
    assert_eq!(fragment_of(&out, 4).border_box.origin, Point { x: px(0), y: px(10) });
    assert_eq!(fragment_of(&out, 5).border_box.origin, Point { x: px(0), y: px(30) });
    assert_eq!(fragment_of(&out, 2).border_box.size, Size { w: px(200), h: px(60) });
}

#[test]
fn relative_offset_should_move_the_whole_subtree() {
    let mut outer = block(2, lengths(), vec![3]);
    outer.offset = Some(Sides { top: Some(px(7)), right: None, bottom: None, left: None });
    let tree = document(vec![2], vec![outer, block(3, with_height(10), vec![])]);
    let out = layout_boxes(&tree, viewport());
    assert_eq!(fragment_of(&out, 2).border_box, rect(0, 7, 800, 10));
    assert_eq!(fragment_of(&out, 3).border_box, rect(0, 7, 800, 10));
}

#[test]
fn negative_margins_should_collapse_as_largest_plus_most_negative() {
    let mut first = with_height(10);
    first.margin.bottom = Some(px(20));
    let mut second = with_height(10);
    second.margin.top = Some(px(-5));
    let tree = document(vec![2, 3], vec![block(2, first, vec![]), block(3, second, vec![])]);
    let out = layout_boxes(&tree, viewport());
    assert_eq!(fragment_of(&out, 3).border_box.origin, Point { x: px(0), y: px(25) });
}

#[test]
fn min_height_should_raise_auto_height() {
    let l = UsedLengths { min_height: px(40), ..lengths() };
    let tree = document(vec![2], vec![block(2, l, vec![])]);
    let out = layout_boxes(&tree, viewport());
    assert_eq!(fragment_of(&out, 2).border_box, rect(0, 0, 800, 40));
}

#[test]
fn an_unknown_root_should_give_the_empty_root_fragment() {
    let tree = BoxTree { boxes: vec![], root: BoxId(0) };
    let out = layout_boxes(&tree, viewport());
    assert_eq!(out.len(), 1);
    assert!(!out.is_empty());
    let root = out.get(out.root).unwrap();
    assert!(matches!(root.kind, FragmentKind::AnonymousBlock));
    assert_eq!(root.border_box, rect(0, 0, 0, 0));
    assert_eq!(out.viewport, viewport().size);
}

#[test]
fn inline_content_should_make_one_line_per_break_separated_group() {
    let text = |node: u32| LayoutBox {
        kind: BoxKind::InlineText,
        node: Some(NodeId(node)),
        style: StyleId(node),
        lengths: lengths(),
        indefinite_height: None,
        indefinite_min_height: Au(0),
        offset: None,
        line_height: px(19),
        children: vec![],
    };
    let br = LayoutBox { kind: BoxKind::LineBreak, node: None, ..text(0) };
    let tree = document(vec![2], vec![block(2, lengths(), vec![3, 4, 5]), text(3), br, text(5)]);
    let out = layout_boxes(&tree, viewport());
    let p = fragment_of(&out, 2);
    assert_eq!(p.children.len(), 2);
    assert_eq!(p.border_box, rect(0, 0, 800, 38));
    let second = out.get(p.children[1]).unwrap();
    assert!(matches!(second.kind, FragmentKind::Line));
    assert_eq!(second.border_box, rect(0, 19, 800, 19));
}

#[test]
fn box_tree_queries_should_follow_the_first_and_last_block_children() {
    let mut parent = lengths();
    parent.margin.top = Some(px(4));
    parent.margin.bottom = Some(px(-2));
    let mut child = with_height(10);
    child.margin.top = Some(px(9));
    child.margin.bottom = Some(px(-6));
    let tree = document(vec![2], vec![block(2, parent, vec![3]), block(3, child, vec![])]);
    assert!(is_block_level(&BoxKind::Block));
    assert!(!is_block_level(&BoxKind::Inline));
    assert!(is_anonymous(&BoxKind::AnonymousBlock));
    assert!(!is_anonymous(&BoxKind::Block));
    assert_eq!(first_block_child(&tree, BoxId(2)), Some(BoxId(3)));
    assert_eq!(last_block_child(&tree, BoxId(2)), Some(BoxId(3)));
    assert_eq!(first_block_child(&tree, BoxId(3)), None);
    assert!(is_block_container(&tree, BoxId(2)));
    assert!(!is_block_container(&tree, BoxId(3)));
    assert!(!is_block_container(&tree, BoxId(99)));
    assert_eq!(effective_margin_top(&tree, BoxId(2), px(4), Au(0), Au(0)), px(9));
    assert_eq!(effective_margin_bottom(&tree, BoxId(2), px(-2), Au(0), Au(0), true, Au(0)), px(-6));
    assert_eq!(effective_margin_top(&tree, BoxId(2), px(4), px(1), Au(0)), px(4));
}

#[test]
fn layout_should_always_succeed_with_the_laid_out_tree() {
    let tree = document(vec![2], vec![block(2, with_height(10), vec![])]);
    let out = layout(&tree, viewport()).unwrap();
    assert_eq!(out.len(), 3);
    assert_eq!(fragment_of(&out, 0).border_box, rect(0, 0, 800, 10));
}

#[test]
fn box_tree_dump_should_list_boxes_in_preorder_with_their_style_lines() {
    let mut text = block(5, lengths(), vec![]);
    text.kind = BoxKind::InlineText;
    let mut anon = block(0, lengths(), vec![3]);
    anon.kind = BoxKind::AnonymousBlock;
    anon.node = None;
    anon.style = StyleId(7);
    let tree = document(vec![2], vec![anon, text]);
    assert_eq!(
        box_dump_order(&tree),
        vec![(BoxId(0), 0), (BoxId(1), 1), (BoxId(2), 2), (BoxId(3), 3)]
    );
    assert_eq!(label(&tree.boxes[3]), "InlineText node=5");
    assert_eq!(label(&tree.boxes[2]), "AnonymousBlock");
    let styles = vec![vec!["display: block".to_string()], vec![], vec![], vec![], vec![], vec!["display: inline".to_string(), "color: x".to_string()]];
    let dump = box_tree_dump(&tree, &styles);
    assert_eq!(
        dump,
        "#boxtree\n| Block node=0\n|   display: block\n|   Block node=1\n|     AnonymousBlock\n|       InlineText node=5\n|         display: inline\n|         color: x"
    );
}

#[test]
fn box_tree_dump_should_stop_on_a_cycle() {
    let tree = BoxTree { boxes: vec![block(0, lengths(), vec![0])], root: BoxId(0) };
    let dump = box_tree_dump(&tree, &vec![]);
    assert_eq!(dump, "#boxtree\n| Block node=0");
}

fn inline(kind: BoxKind, node: u32, children: Vec<u32>) -> LayoutBox {
    LayoutBox { kind, ..block(node, lengths(), children) }
}

#[test]
fn inline_content_should_flatten_in_order_and_split_at_breaks() {
    // <p>a<span>b<br>c</span><div></div>d</p>: the stray block is skipped.
    let tree = BoxTree {
        boxes: vec![
            block(0, lengths(), vec![1, 2, 6, 7]),
            inline(BoxKind::InlineText, 1, vec![]),
            inline(BoxKind::Inline, 2, vec![3, 4, 5]),
            inline(BoxKind::InlineText, 3, vec![]),
            inline(BoxKind::LineBreak, 4, vec![]),
            inline(BoxKind::InlineText, 5, vec![]),
            block(6, lengths(), vec![]),
            inline(BoxKind::InlineText, 7, vec![]),
        ],
        root: BoxId(0),
    };
    let tokens = flatten_inline_children(&tree, &tree.boxes[0].children);
    assert_eq!(tokens.len(), 5);
    assert!(matches!(tokens[0], InlineToken::Text(BoxId(1))));
    assert!(matches!(tokens[1], InlineToken::Text(BoxId(3))));
    assert!(matches!(tokens[2], InlineToken::Break));
    assert!(matches!(tokens[3], InlineToken::Text(BoxId(5))));
    assert!(matches!(tokens[4], InlineToken::Text(BoxId(7))));
    let groups = split_into_groups(&tokens);
    assert_eq!(groups, vec![vec![BoxId(1), BoxId(3)], vec![BoxId(5), BoxId(7)]]);
}

#[test]
fn every_break_should_end_a_line_group() {
    assert_eq!(split_into_groups(&vec![]), vec![vec![]]);
    let tokens = vec![InlineToken::Text(BoxId(1)), InlineToken::Break];
    assert_eq!(split_into_groups(&tokens), vec![vec![BoxId(1)], vec![]]);
    let tokens = vec![InlineToken::Text(BoxId(1)), InlineToken::Break, InlineToken::Break, InlineToken::Text(BoxId(2))];
    assert_eq!(split_into_groups(&tokens), vec![vec![BoxId(1)], vec![], vec![BoxId(2)]]);
}

#[test]
fn line_groups_should_drop_only_the_group_after_a_trailing_break() {
    assert_eq!(line_groups(&vec![]), vec![vec![]]);
    let tokens = vec![InlineToken::Text(BoxId(1)), InlineToken::Break];
    assert_eq!(line_groups(&tokens), vec![vec![BoxId(1)]]);
    let tokens = vec![InlineToken::Text(BoxId(1)), InlineToken::Break, InlineToken::Break];
    assert_eq!(line_groups(&tokens), vec![vec![BoxId(1)], vec![]]);
    assert_eq!(line_groups(&vec![InlineToken::Break]), vec![vec![]]);
}

#[test]
fn shift_fragments_should_move_only_the_fragments_from_the_start() {
    let tree = document(vec![2], vec![block(2, with_height(10), vec![])]);
    let out = layout_boxes(&tree, viewport());
    let mut frags = out.fragments.clone();
    let before: Vec<Rect> = frags.iter().map(|f| f.border_box).collect();
    shift_fragments(&mut frags, 1, px(2), px(-3));
    assert_eq!(frags[0].border_box, before[0]);
    for i in 1..frags.len() {
        assert_eq!(frags[i].border_box.origin, Point { x: Au(before[i].origin.x.0 + 120), y: Au(before[i].origin.y.0 - 180) });
        assert_eq!(frags[i].border_box.size, before[i].size);
    }
    assert_eq!(initial_style_id(), StyleId(u32::MAX));
}

#[test]
fn a_cyclic_tree_should_end_with_the_fallback_root() {
    let tree = BoxTree { boxes: vec![block(0, lengths(), vec![1]), block(1, lengths(), vec![0])], root: BoxId(0) };
    let out = layout_boxes(&tree, viewport());
    let root = out.get(out.root).unwrap();
    assert!(matches!(root.kind, FragmentKind::AnonymousBlock));
    assert_eq!(root.border_box, rect(0, 0, 0, 0));
    assert_eq!(out.root.0 as usize, out.len() - 1);
}

#[test]
fn unknown_child_ids_should_be_skipped_without_cutting_the_walk_short() {
    let mut body_children = vec![2];
    body_children.extend(100..120);
    body_children.push(3);
    let tree = document(body_children, vec![block(2, with_height(10), vec![]), block(3, with_height(10), vec![])]);
    let out = layout_boxes(&tree, viewport());
    assert_eq!(fragment_of(&out, 3).border_box, rect(0, 10, 800, 10));
    assert_eq!(fragment_of(&out, 0).border_box, rect(0, 0, 800, 20));
}

/// `<p>` (box 2) holding the inline boxes `kinds`, in a line height of 19.2px.
fn paragraph(kinds: Vec<BoxKind>) -> BoxTree {
    let ids: Vec<u32> = (3..3 + kinds.len() as u32).collect();
    let mut p = block(2, lengths(), ids.clone());
    p.line_height = Au(1152);
    let mut rest = vec![p];
    for (id, kind) in ids.into_iter().zip(kinds) {
        rest.push(LayoutBox { kind, line_height: Au(1152), ..block(id, lengths(), vec![]) });
    }
    document(vec![2], rest)
}

fn lines_of(out: &FragmentTree, node: u32) -> Vec<&Fragment> {
    fragment_of(out, node).children.iter().map(|&id| out.get(id).unwrap()).collect()
}

#[test]
fn trailing_br_should_not_add_a_line_box() {
    let out = layout_boxes(&paragraph(vec![BoxKind::InlineText, BoxKind::LineBreak]), viewport());
    let lines = lines_of(&out, 2);
    assert_eq!(lines.len(), 1, "the trailing <br> ends the line, it adds none");
    assert_eq!(lines[0].children.len(), 1);
    assert_eq!(fragment_of(&out, 2).content_box.size.h, Au(1152), "one line height tall, not two");
}

#[test]
fn br_should_force_line_break() {
    let out = layout_boxes(
        &paragraph(vec![BoxKind::InlineText, BoxKind::LineBreak, BoxKind::InlineText]),
        viewport(),
    );
    let lines = lines_of(&out, 2);
    assert_eq!(lines.len(), 2, "one line either side of the <br>");
    assert_eq!(lines[0].children.len(), 1);
    assert_eq!(lines[1].children.len(), 1);
}

#[test]
fn double_br_in_the_middle_should_add_an_empty_line() {
    let out = layout_boxes(
        &paragraph(vec![BoxKind::InlineText, BoxKind::LineBreak, BoxKind::LineBreak, BoxKind::InlineText]),
        viewport(),
    );
    let lines = lines_of(&out, 2);
    assert_eq!(lines.len(), 3, "a, an empty line, b");
    assert_eq!(lines[0].children.len(), 1);
    assert_eq!(lines[1].children.len(), 0, "the middle line box is empty but real");
    assert_eq!(lines[2].children.len(), 1);
}

#[test]
fn a_lone_br_should_make_one_empty_line() {
    let out = layout_boxes(&paragraph(vec![BoxKind::LineBreak]), viewport());
    let lines = lines_of(&out, 2);
    assert_eq!(lines.len(), 1);
    assert_eq!(lines[0].children.len(), 0);
    assert_eq!(fragment_of(&out, 2).content_box.size.h, Au(0));
}

#[test]
fn a_box_shared_by_two_parents_should_be_laid_out_in_both_places() {
    // Box 2, a container, sits twice among <body>'s children: it is laid out twice.
    let tree = document(vec![2, 2], vec![block(2, lengths(), vec![3]), block(3, with_height(10), vec![])]);
    let out = layout_boxes(&tree, viewport());
    let root = out.get(out.root).unwrap();
    assert!(matches!(root.kind, FragmentKind::Block));
    assert_eq!(root.border_box, rect(0, 0, 800, 20));
    let body = fragment_of(&out, 1);
    assert_eq!(body.children.len(), 2);
    assert_eq!(out.get(body.children[1]).unwrap().border_box, rect(0, 10, 800, 10));
}
