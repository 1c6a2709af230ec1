//! Text fragments of the layout dumps: the keyword each CSS value prints as, indentation,
//! decimal numbers, colours, four-sided values and element tags.
use vstd::prelude::*;

use crate::dom::node::Element;
use crate::layout::geom::{BoxSizing, Display, Overflow, Position, Rgba8, Sides, TextAlign, WhiteSpace};
use crate::strutil::{push_char, push_str, same_str};

verus! {

/// The keyword a `display` value prints as.
pub fn display_str(d: Display) -> (r: &'static str)
    ensures
        r@ == (match d {
            Display::Block => "block"@,
            Display::Inline => "inline"@,
            Display::NoBox => "none"@,
        }),
{
    match d {
        Display::Block => "block",
        Display::Inline => "inline",
        Display::NoBox => "none",
    }
}

/// The keyword a `position` value prints as.
pub fn position_str(p: Position) -> (r: &'static str)
    ensures
        r@ == (match p {
            Position::Static => "static"@,
            Position::Relative => "relative"@,
        }),
{
    match p {
        Position::Static => "static",
        Position::Relative => "relative",
    }
}

/// The keyword a `box-sizing` value prints as.
pub fn box_sizing_str(b: BoxSizing) -> (r: &'static str)
    ensures
        r@ == (match b {
            BoxSizing::ContentBox => "content-box"@,
            BoxSizing::BorderBox => "border-box"@,
        }),
{
    match b {
        BoxSizing::ContentBox => "content-box",
        BoxSizing::BorderBox => "border-box",
    }
}

/// The keyword an `overflow` value prints as.
pub fn overflow_str(o: Overflow) -> (r: &'static str)
    ensures
        r@ == (match o {
            Overflow::Visible => "visible"@,
            Overflow::Hidden => "hidden"@,
        }),
{
    match o {
        Overflow::Visible => "visible",
        Overflow::Hidden => "hidden",
    }
}

/// The keyword a `text-align` value prints as.
pub fn text_align_str(t: TextAlign) -> (r: &'static str)
    ensures
        r@ == (match t {
            TextAlign::Left => "left"@,
            TextAlign::Right => "right"@,
            TextAlign::Center => "center"@,
        }),
{
    match t {
        TextAlign::Left => "left",
        TextAlign::Right => "right",
        TextAlign::Center => "center",
    }
}

/// The keyword a `white-space` value prints as.
pub fn white_space_str(w: WhiteSpace) -> (r: &'static str)
    ensures
        r@ == (match w {
            WhiteSpace::Normal => "normal"@,
            WhiteSpace::Pre => "pre"@,
        }),
{
    match w {
        WhiteSpace::Normal => "normal",
        WhiteSpace::Pre => "pre",
    }
}

/// `true` or `false`.
pub fn bool_str(b: bool) -> (r: String)
    ensures
        r@ == (if b { "true"@ } else { "false"@ }),
{
    if b {
        "true".to_owned()
    } else {
        "false".to_owned()
    }
}

/// `depth` levels of two-space indentation.
pub fn indent(depth: usize) -> (r: String)
    ensures
        r@ == Seq::new((2 * depth) as nat, |i: int| ' '),
{
    let mut out = String::new();
    let mut i: usize = 0;
    while i < depth
        invariant
            i <= depth,
            out@ == Seq::new((2 * i) as nat, |k: int| ' '),
        decreases depth - i,
    {
        push_str(&mut out, "  ");
        proof {
            reveal_strlit("  ");
            assert(out@ =~= Seq::new((2 * (i + 1)) as nat, |k: int| ' '));
        }
        i += 1;
    }
    out
}

/// The decimal digit character for `d < 10`.
pub open spec fn digit_char(d: int) -> char {
    (0x30 + d) as char
}

/// The decimal representation of `n`, without leading zeros (`0` for zero).
pub open spec fn decimal(n: nat) -> Seq<char>
    decreases n,
{
    if n < 10 {
        seq![digit_char(n as int)]
    } else {
        decimal(n / 10).push(digit_char((n % 10) as int))
    }
}

/// Appends the decimal representation of `n` to `out`.
pub fn push_decimal(out: &mut String, n: u64)
    ensures
        final(out)@ == old(out)@ + decimal(n as nat),
    decreases n,
{
    if n >= 10 {
        push_decimal(out, n / 10);
    }
    let d = (n % 10) as u32;
    let c = char_from_digit(d);
    push_char(out, c);
    proof {
        if n >= 10 {
            assert(old(out)@ + decimal(n as nat) =~= (old(out)@ + decimal((n / 10) as nat)).push(
                digit_char((n % 10) as int),
            ));
        } else {
            assert(old(out)@ + decimal(n as nat) =~= old(out)@.push(digit_char(n as int)));
        }
    }
}

/// The digit character for `d < 10`.
fn char_from_digit(d: u32) -> (c: char)
    requires
        d < 10,
    ensures
        c == digit_char(d as int),
{
    match d {
        0 => '0',
        1 => '1',
        2 => '2',
        3 => '3',
        4 => '4',
        5 => '5',
        6 => '6',
        7 => '7',
        8 => '8',
        _ => '9',
    }
}

/// A colour as `rgba(r, g, b, a)`, each channel in decimal.
pub fn rgba_str(c: Rgba8) -> (r: String)
    ensures
        r@ == "rgba("@ + decimal(c.r as nat) + ", "@ + decimal(c.g as nat) + ", "@ + decimal(
            c.b as nat,
        ) + ", "@ + decimal(c.a as nat) + ")"@,
{
    let mut out = "rgba(".to_owned();
    push_decimal(&mut out, c.r as u64);
    push_str(&mut out, ", ");
    push_decimal(&mut out, c.g as u64);
    push_str(&mut out, ", ");
    push_decimal(&mut out, c.b as u64);
    push_str(&mut out, ", ");
    push_decimal(&mut out, c.a as u64);
    push_str(&mut out, ")");
    out
}

/// A four-sided value as its four sides rendered by `render`, in CSS order (top, right,
/// bottom, left), separated by single spaces.
pub fn sides_str<T: Copy>(sides: &Sides<T>, render: impl Fn(T) -> String) -> (r: String)
    requires
        forall|t: T| call_requires(render, (t,)),
    ensures
        exists|a: String, b: String, c: String, d: String|
            call_ensures(render, (sides.top,), a) && call_ensures(render, (sides.right,), b)
                && call_ensures(render, (sides.bottom,), c) && call_ensures(render, (sides.left,), d)
                && r@ == a@ + " "@ + b@ + " "@ + c@ + " "@ + d@,
{
    let a = render(sides.top);
    let b = render(sides.right);
    let c = render(sides.bottom);
    let d = render(sides.left);
    let mut out = String::new();
    push_str(&mut out, a.as_str());
    push_str(&mut out, " ");
    push_str(&mut out, b.as_str());
    push_str(&mut out, " ");
    push_str(&mut out, c.as_str());
    push_str(&mut out, " ");
    push_str(&mut out, d.as_str());
    proof {
        assert(out@ =~= a@ + " "@ + b@ + " "@ + c@ + " "@ + d@);
    }
    out
}

/// The SVG namespace URL.
pub const SVG_NS: &'static str = "http://www.w3.org/2000/svg";

/// The MathML namespace URL.
pub const MATHML_NS: &'static str = "http://www.w3.org/1998/Math/MathML";

/// An element's tag as the fragment dump prints it: `<svg local>` and `<math local>` for
/// SVG and MathML elements, `<local>` otherwise.
pub fn tag(element: &Element) -> (r: String)
    ensures
        r@ == (if element.name.ns@ == SVG_NS@ {
            "<svg "@ + element.name.local@ + ">"@
        } else if element.name.ns@ == MATHML_NS@ {
            "<math "@ + element.name.local@ + ">"@
        } else {
            "<"@ + element.name.local@ + ">"@
        }),
{
    let mut out = if same_str(element.name.ns.as_str(), SVG_NS) {
        "<svg ".to_owned()
    } else if same_str(element.name.ns.as_str(), MATHML_NS) {
        "<math ".to_owned()
    } else {
        "<".to_owned()
    };
    push_str(&mut out, element.name.local.as_str());
    push_str(&mut out, ">");
    out
}

} // verus!
