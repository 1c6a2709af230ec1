use chromelight::dom::node::{Element, QualName};
use chromelight::fonts::db::FontKey;
use chromelight::layout::au::Au;
use chromelight::layout::error::LayoutError;
use chromelight::layout::box_model::{clamp_au, collapse_margin_set, collapse_margins, content_origin_of, inset, shift_rect, BoxModel};
use chromelight::layout::dump::{
    bool_str, box_sizing_str, display_str, indent, overflow_str, position_str, push_decimal, rgba_str, sides_str, tag,
    text_align_str, white_space_str,
};
use chromelight::layout::fragment::{fragment_dump_order, Fragment, FragmentId, FragmentKind, StyleId};
use chromelight::layout::geom::{BoxSizing, Display, Overflow, Point, Position, Rect, Rgba8, Sides, Size, TextAlign, WhiteSpace};
use chromelight::layout::inline::{group_runs, run_advance, runs_width, text_of, RunGroup};
use chromelight::layout::resolve::{resolve_box_model, resolve_height, resolve_offset, resolve_width_and_margins, UsedLengths};
use chromelight::dom::document::{Document, NodeId};
use chromelight::dom::node::NodeKind;
use chromelight::layout::text::{Glyph, GlyphRun};

fn rect(x: i32, y: i32, w: i32, h: i32) -> Rect {
    Rect::new(Point { x: Au(x), y: Au(y) }, Size { w: Au(w), h: Au(h) })
}

#[test]
fn au_saturating_add_should_not_overflow() {
    assert_eq!(Au::max_value().saturating_add(Au(1)), Au::max_value());
    assert_eq!(Au(i32::MIN).saturating_sub(Au(1)), Au(i32::MIN));
    assert_eq!(Au(5).saturating_add(Au(-7)), Au(-2));
}

#[test]
fn rect_new_should_pair_the_given_origin_and_size_unchanged() {
    let origin = Point { x: Au(600), y: Au(-120) };
    let size = Size { w: Au(1800), h: Au(2400) };
    let r = Rect::new(origin, size);
    assert_eq!(r.origin, origin);
    assert_eq!(r.size, size);
}

#[test]
fn rect_right_and_bottom_should_add_origin_and_size() {
    let r = rect(600, 1200, 1800, 2400);
    assert_eq!(r.right(), Au(2400));
    assert_eq!(r.bottom(), Au(3600));
}

#[test]
fn rect_right_and_bottom_should_saturate_instead_of_overflowing() {
    let r = rect(i32::MAX - 10, i32::MIN + 10, 100, -100);
    assert_eq!(r.right(), Au::max_value());
    assert_eq!(r.bottom(), Au(i32::MIN));
}

#[test]
fn rect_is_empty_should_be_false_for_a_positive_area_rect() {
    assert!(!rect(0, 0, 60, 60).is_empty());
}

#[test]
fn rect_is_empty_should_be_true_for_zero_width_or_height() {
    assert!(rect(0, 0, 0, 60).is_empty());
    assert!(rect(0, 0, 60, 0).is_empty());
}

#[test]
fn rect_is_empty_should_be_true_for_negative_width_or_height() {
    assert!(rect(0, 0, -60, 60).is_empty());
    assert!(rect(0, 0, 60, -60).is_empty());
}

#[test]
fn sides_uniform_sets_all_four() {
    let s = Sides::uniform(Au(3));
    assert_eq!((s.top, s.right, s.bottom, s.left), (Au(3), Au(3), Au(3), Au(3)));
}

#[test]
fn colors_have_their_initial_values() {
    assert_eq!(Rgba8::black(), Rgba8 { r: 0, g: 0, b: 0, a: 255 });
    assert_eq!(Rgba8::transparent(), Rgba8 { r: 0, g: 0, b: 0, a: 0 });
}

#[test]
fn ids_round_trip_their_index() {
    assert_eq!(FragmentId::from_index(7).index(), 7);
    assert_eq!(StyleId::from_index(0).index(), 0);
    assert_eq!(FragmentId::from_index(usize::MAX).index(), u32::MAX as usize);
}

#[test]
fn collapse_margin_set_should_use_max_positive_plus_min_negative() {
    assert_eq!(collapse_margin_set(&[Au(5), Au(-3), Au(-2)]), Au(2));
    assert_eq!(collapse_margin_set(&[Au(10), Au(20)]), Au(20));
    assert_eq!(collapse_margin_set(&[Au(-10), Au(-20)]), Au(-20));
    assert_eq!(collapse_margin_set(&[]), Au(0));
    assert_eq!(collapse_margins(Au(7), Au(-3)), Au(4));
    assert_eq!(collapse_margins(Au(-3), Au(7)), collapse_margins(Au(7), Au(-3)));
}

#[test]
fn clamp_should_let_min_win_over_a_smaller_max() {
    assert_eq!(clamp_au(Au(5), Au(10), Some(Au(20))), Au(10));
    assert_eq!(clamp_au(Au(50), Au(10), Some(Au(20))), Au(20));
    assert_eq!(clamp_au(Au(50), Au(10), Some(Au(5))), Au(50));
    assert_eq!(clamp_au(Au(50), Au(10), None), Au(50));
}

#[test]
fn inset_should_shrink_and_never_go_negative() {
    let r = rect(0, 0, 100, 100);
    let s = Sides { top: Au(10), right: Au(20), bottom: Au(30), left: Au(40) };
    assert_eq!(inset(r, s), rect(40, 10, 40, 60));
    assert_eq!(inset(rect(0, 0, 10, 10), Sides::uniform(Au(100))), rect(100, 100, 0, 0));
}

#[test]
fn shift_rect_should_move_only_the_origin() {
    let mut r = rect(1, 2, 3, 4);
    shift_rect(&mut r, Au(10), Au(-20));
    assert_eq!(r, rect(11, -18, 3, 4));
}

#[test]
fn content_origin_adds_padding_and_border() {
    let model = BoxModel {
        margin_left: Au(0),
        margin_top: Au(0),
        margin_bottom: Au(0),
        padding: Sides { top: Au(1), right: Au(0), bottom: Au(0), left: Au(2) },
        border: Sides { top: Au(10), right: Au(0), bottom: Au(0), left: Au(20) },
        content_width: Au(0),
        min_height: Au(0),
        max_height: None,
        known_height: None,
    };
    assert_eq!(content_origin_of(Point { x: Au(100), y: Au(200) }, &model), Point { x: Au(122), y: Au(211) });
}

#[test]
fn group_runs_should_split_where_the_item_changes() {
    let groups = group_runs(5, &vec![0, 0, 1, 1, 2]);
    assert_eq!(
        groups,
        vec![
            RunGroup { item: 0, start: 0, end: 1 },
            RunGroup { item: 1, start: 2, end: 3 },
            RunGroup { item: 2, start: 4, end: 4 },
        ]
    );
    assert_eq!(group_runs(0, &vec![]), vec![]);
    assert_eq!(group_runs(2, &vec![3]), vec![RunGroup { item: 3, start: 0, end: 0 }, RunGroup { item: usize::MAX, start: 1, end: 1 }]);
}

fn run(x: i32, advances: &[i32]) -> GlyphRun {
    GlyphRun {
        font: FontKey(0),
        size: Au(960),
        origin: Point { x: Au(x), y: Au(0) },
        glyphs: advances.iter().map(|&a| Glyph { id: 1, x: Au(0), y: Au(0), advance: Au(a) }).collect(),
        color: Rgba8::black(),
    }
}

#[test]
fn runs_width_spans_first_origin_to_last_advance() {
    assert_eq!(runs_width(&[]), Au(0));
    assert_eq!(runs_width(&[run(100, &[10, 20])]), Au(30));
    assert_eq!(runs_width(&[run(100, &[10]), run(200, &[5, 5])]), Au(110));
}

#[test]
fn keywords_print_as_css() {
    assert_eq!(display_str(Display::Block), "block");
    assert_eq!(display_str(Display::Inline), "inline");
    assert_eq!(display_str(Display::NoBox), "none");
    assert_eq!(position_str(Position::Relative), "relative");
    assert_eq!(box_sizing_str(BoxSizing::BorderBox), "border-box");
    assert_eq!(overflow_str(Overflow::Hidden), "hidden");
    assert_eq!(text_align_str(TextAlign::Center), "center");
    assert_eq!(white_space_str(WhiteSpace::Pre), "pre");
    assert_eq!(bool_str(true), "true");
    assert_eq!(bool_str(false), "false");
}

#[test]
fn indent_and_numbers_print_as_expected() {
    assert_eq!(indent(0), "");
    assert_eq!(indent(3), "      ");
    let mut s = String::new();
    push_decimal(&mut s, 0);
    push_decimal(&mut s, 1234567);
    assert_eq!(s, "01234567");
    assert_eq!(rgba_str(Rgba8 { r: 1, g: 22, b: 255, a: 0 }), "rgba(1, 22, 255, 0)");
}

#[test]
fn sides_print_in_css_order() {
    let s = Sides { top: 1, right: 2, bottom: 3, left: 4 };
    assert_eq!(sides_str(&s, |v: i32| v.to_string()), "1 2 3 4");
}

#[test]
fn tags_carry_their_namespace_prefix() {
    let el = |ns: &str, local: &str| Element {
        name: QualName { prefix: None, ns: ns.to_string(), local: local.to_string() },
        attrs: Vec::new(),
        template_contents: None,
    };
    assert_eq!(tag(&el("http://www.w3.org/2000/svg", "circle")), "<svg circle>");
    assert_eq!(tag(&el("http://www.w3.org/1998/Math/MathML", "mi")), "<math mi>");
    assert_eq!(tag(&el("http://www.w3.org/1999/xhtml", "div")), "<div>");
}

fn lengths(width: Option<i32>, margin_lr: (Option<i32>, Option<i32>)) -> UsedLengths {
    UsedLengths {
        width: width.map(Au),
        height: None,
        min_width: Au(0),
        max_width: None,
        min_height: Au(0),
        max_height: None,
        margin: Sides { top: Some(Au(0)), right: margin_lr.1.map(Au), bottom: Some(Au(0)), left: margin_lr.0.map(Au) },
        padding: Sides::uniform(Au(0)),
        border: Sides::uniform(Au(0)),
        box_sizing: BoxSizing::ContentBox,
    }
}

#[test]
fn auto_width_fills_the_containing_block() {
    let l = lengths(None, (Some(0), Some(0)));
    assert_eq!(resolve_width_and_margins(&l, Au(48000)), (Au(48000), Au(0), Au(0)));
    let l = lengths(None, (None, Some(600)));
    assert_eq!(resolve_width_and_margins(&l, Au(48000)), (Au(47400), Au(0), Au(600)));
}

#[test]
fn auto_margins_center_a_fixed_width() {
    let l = lengths(Some(24000), (None, None));
    assert_eq!(resolve_width_and_margins(&l, Au(48000)), (Au(24000), Au(12000), Au(12000)));
    let l = lengths(Some(3), (None, None));
    assert_eq!(resolve_width_and_margins(&l, Au(10)), (Au(3), Au(3), Au(4)));
    let l = lengths(Some(30), (None, None));
    assert_eq!(resolve_width_and_margins(&l, Au(10)), (Au(30), Au(0), Au(0)));
}

#[test]
fn one_auto_margin_takes_the_rest() {
    let l = lengths(Some(100), (None, Some(20)));
    assert_eq!(resolve_width_and_margins(&l, Au(1000)), (Au(100), Au(880), Au(20)));
    let l = lengths(Some(100), (Some(20), None));
    assert_eq!(resolve_width_and_margins(&l, Au(1000)), (Au(100), Au(20), Au(880)));
    let l = lengths(Some(100), (Some(20), Some(30)));
    assert_eq!(resolve_width_and_margins(&l, Au(1000)), (Au(100), Au(20), Au(30)));
}

#[test]
fn border_box_width_and_height_exclude_padding_and_border() {
    let mut l = lengths(Some(18000), (Some(0), Some(0)));
    l.height = Some(Au(6000));
    l.padding = Sides::uniform(Au(600));
    l.border = Sides::uniform(Au(300));
    l.box_sizing = BoxSizing::BorderBox;
    assert_eq!(resolve_width_and_margins(&l, Au(48000)).0, Au(16200));
    assert_eq!(resolve_height(&l), Some(Au(4200)));
    l.height = Some(Au(100));
    assert_eq!(resolve_height(&l), Some(Au(0)));
}

#[test]
fn min_width_wins_over_the_specified_width() {
    let mut l = lengths(Some(1200), (Some(0), Some(0)));
    l.min_width = Au(6000);
    assert_eq!(resolve_width_and_margins(&l, Au(12000)).0, Au(6000));
    l.max_width = Some(Au(3000));
    assert_eq!(resolve_width_and_margins(&l, Au(12000)).0, Au(6000));
}

#[test]
fn box_model_clamps_a_definite_height() {
    let mut l = lengths(Some(12000), (Some(60), Some(0)));
    l.margin.top = None;
    l.margin.bottom = Some(Au(120));
    l.height = Some(Au(3600));
    l.max_height = Some(Au(1200));
    let m = resolve_box_model(&l, Au(48000));
    assert_eq!(m.content_width, Au(12000));
    assert_eq!(m.margin_left, Au(60));
    assert_eq!(m.margin_top, Au(0));
    assert_eq!(m.margin_bottom, Au(120));
    assert_eq!(m.known_height, Some(Au(1200)));
    l.height = None;
    assert_eq!(resolve_box_model(&l, Au(48000)).known_height, None);
}

#[test]
fn layout_error_names_the_requested_families() {
    let e = LayoutError::FontNotBundled { family: "serif, Ahem".to_string() };
    assert_eq!(e.message(), "text was shaped with a font that is not bundled: serif, Ahem");
}

#[test]
fn relative_offsets_prefer_left_and_top() {
    let sides = |top: Option<i32>, right: Option<i32>, bottom: Option<i32>, left: Option<i32>| Sides {
        top: top.map(Au),
        right: right.map(Au),
        bottom: bottom.map(Au),
        left: left.map(Au),
    };
    assert_eq!(resolve_offset(sides(None, None, None, None)), (Au(0), Au(0)));
    assert_eq!(resolve_offset(sides(Some(60), Some(30), Some(90), Some(120))), (Au(120), Au(60)));
    assert_eq!(resolve_offset(sides(None, Some(30), Some(90), None)), (Au(-30), Au(-90)));
    assert_eq!(resolve_offset(sides(None, Some(i32::MIN), None, None)), (Au(i32::MAX), Au(0)));
}

#[test]
fn text_of_reads_only_text_nodes() {
    let mut doc = Document::new("about:blank");
    let t = doc.create(NodeKind::Text("hi".to_string()));
    let c = doc.create(NodeKind::Comment("no".to_string()));
    assert_eq!(text_of(&doc, t), "hi");
    assert_eq!(text_of(&doc, c), "");
    assert_eq!(text_of(&doc, NodeId::from_index(99)), "");
}

fn frag(children: Vec<u32>) -> Fragment {
    Fragment {
        node: None,
        kind: FragmentKind::Block,
        border_box: rect(0, 0, 0, 0),
        padding_box: rect(0, 0, 0, 0),
        content_box: rect(0, 0, 0, 0),
        style: StyleId(0),
        children: children.into_iter().map(FragmentId).collect(),
    }
}

#[test]
fn fragment_dump_order_is_pre_order_with_depths() {
    let frags = vec![frag(vec![1, 3]), frag(vec![2]), frag(vec![]), frag(vec![9])];
    assert_eq!(
        fragment_dump_order(&frags, FragmentId(0)),
        vec![(FragmentId(0), 0), (FragmentId(1), 1), (FragmentId(2), 2), (FragmentId(3), 1)]
    );
}

#[test]
fn fragment_dump_order_is_bounded_on_a_cycle() {
    let frags = vec![frag(vec![1]), frag(vec![0])];
    assert_eq!(fragment_dump_order(&frags, FragmentId(0)), vec![(FragmentId(0), 0), (FragmentId(1), 1)]);
    assert_eq!(fragment_dump_order(&frags, FragmentId(7)), vec![]);
}

#[test]
fn run_advance_sums_and_saturates() {
    let mut r = run(0, &[60, 120, 30]);
    assert_eq!(run_advance(&r), Au(210));
    r.glyphs.push(Glyph { id: 0, x: Au(0), y: Au(0), advance: Au(i32::MAX) });
    assert_eq!(run_advance(&r), Au(i32::MAX));
}
