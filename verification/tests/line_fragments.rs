use chromelight::dom::document::NodeId;
use chromelight::fonts::db::FontKey;
use chromelight::layout::au::Au;
use chromelight::layout::fragment::{Fragment, FragmentId, FragmentKind, StyleId};
use chromelight::layout::geom::{Point, Rect, Rgba8, Size};
use chromelight::layout::lines::{build_line_fragments, InlineItemInfo, LineBox};
use chromelight::layout::text::{Glyph, GlyphRun};

fn run(x: i32, advances: &[i32]) -> GlyphRun {
    GlyphRun {
        font: FontKey(0),
        size: Au(960),
        origin: Point { x: Au(x), y: Au(0) },
        glyphs: advances.iter().map(|&a| Glyph { id: 1, x: Au(0), y: Au(0), advance: Au(a) }).collect(),
        color: Rgba8 { r: 0, g: 0, b: 0, a: 255 },
    }
}

fn runs_of(f: &Fragment) -> &Vec<GlyphRun> {
    match &f.kind {
        FragmentKind::Text { runs } => runs,
        _ => panic!("not a text fragment"),
    }
}

#[test]
fn build_line_fragments_should_stack_lines_and_place_runs() {
    let items = vec![
        InlineItemInfo::Text { node: NodeId(7), style: StyleId(3) },
        InlineItemInfo::Text { node: NodeId(8), style: StyleId(4) },
    ];
    let lines = vec![
        LineBox { height: Au(100), baseline: Au(80), runs: vec![run(0, &[10, 10]), run(20, &[5]), run(25, &[30])], run_items: vec![0, 0, 1] },
        LineBox { height: Au(50), baseline: Au(40), runs: vec![run(0, &[7])], run_items: vec![1] },
    ];
    let mut fragments: Vec<Fragment> = Vec::new();
    let origin = Point { x: Au(1000), y: Au(2000) };
    let (ids, height) = build_line_fragments(&lines, &items, origin, Au(600), StyleId(9), &mut fragments);
    assert_eq!(height, Au(150));
    assert_eq!(fragments.len(), 5);
    assert_eq!(ids, vec![FragmentId(2), FragmentId(4)]);

    let line0 = &fragments[2];
    assert!(matches!(line0.kind, FragmentKind::Line));
    assert_eq!(line0.node, None);
    assert_eq!(line0.style, StyleId(9));
    assert_eq!(line0.border_box, Rect { origin: Point { x: Au(1000), y: Au(2000) }, size: Size { w: Au(600), h: Au(100) } });
    assert_eq!(line0.children, vec![FragmentId(0), FragmentId(1)]);

    let first = &fragments[0];
    assert_eq!(first.node, Some(NodeId(7)));
    assert_eq!(first.style, StyleId(3));
    let runs = runs_of(first);
    assert_eq!(runs.len(), 2);
    assert_eq!(runs[0].origin, Point { x: Au(1000), y: Au(2080) });
    assert_eq!(runs[1].origin, Point { x: Au(1020), y: Au(2080) });
    assert_eq!(runs[1].glyphs, run(20, &[5]).glyphs);
    assert_eq!(first.border_box, Rect { origin: Point { x: Au(1000), y: Au(2000) }, size: Size { w: Au(25), h: Au(100) } });

    let second = &fragments[1];
    assert_eq!(second.node, Some(NodeId(8)));
    assert_eq!(runs_of(second)[0].origin, Point { x: Au(1025), y: Au(2080) });
    assert_eq!(second.border_box.size.w, Au(30));

    let line1 = &fragments[4];
    assert_eq!(line1.border_box, Rect { origin: Point { x: Au(1000), y: Au(2100) }, size: Size { w: Au(600), h: Au(50) } });
    assert_eq!(line1.children, vec![FragmentId(3)]);
    assert_eq!(runs_of(&fragments[3])[0].origin, Point { x: Au(1000), y: Au(2140) });
}

#[test]
fn build_line_fragments_should_give_unknown_items_the_container_style() {
    let lines = vec![LineBox { height: Au(10), baseline: Au(8), runs: vec![run(0, &[4])], run_items: vec![5] }];
    let mut fragments: Vec<Fragment> = Vec::new();
    let (ids, height) =
        build_line_fragments(&lines, &[InlineItemInfo::Break], Point { x: Au(0), y: Au(0) }, Au(50), StyleId(2), &mut fragments);
    assert_eq!(ids.len(), 1);
    assert_eq!(height, Au(10));
    assert_eq!(fragments[0].node, None);
    assert_eq!(fragments[0].style, StyleId(2));
}

#[test]
fn build_line_fragments_should_saturate_the_line_stack() {
    let lines = vec![
        LineBox { height: Au(i32::MAX), baseline: Au(0), runs: vec![], run_items: vec![] },
        LineBox { height: Au(10), baseline: Au(0), runs: vec![], run_items: vec![] },
    ];
    let mut fragments: Vec<Fragment> = Vec::new();
    let (ids, height) = build_line_fragments(&lines, &[], Point { x: Au(0), y: Au(5) }, Au(50), StyleId(0), &mut fragments);
    assert_eq!(ids, vec![FragmentId(0), FragmentId(1)]);
    assert_eq!(height, Au(i32::MAX));
    assert_eq!(fragments[1].border_box.origin.y, Au(i32::MAX));
    assert!(fragments[0].children.is_empty());
}
