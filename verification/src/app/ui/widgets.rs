//! What every page is built from.

use vstd::prelude::*;
use vstd::string::*;

use crate::app::ui::lines::{
    blank, line_width, lines_view, no_lines, one, push_blank, push_text, repeat, repeated, sp,
    Line, LineView, Role,
};
use crate::app::util::{fit, fitted, fitting_keeps_to_the_width, pad, padded};
use crate::text::{to_chars, uppercase_of};

verus! {

/// Room at the left and right of a page.
pub const GUTTER: u16 = 2;

/// A rectangle of the screen.
#[derive(Debug, Clone, Copy, PartialEq, Eq, Structural)]
pub struct Area {
    pub x: u16,
    pub y: u16,
    pub width: u16,
    pub height: u16,
}

/// `a - b`, or nothing.
pub open spec fn less(a: int, b: int) -> int {
    if a > b {
        a - b
    } else {
        0
    }
}

pub open spec fn smaller(a: int, b: int) -> int {
    if a < b {
        a
    } else {
        b
    }
}

/// A heading of a group, in capitals.
pub fn heading(text: &str) -> (r: Line)
    ensures
        r@ == one(uppercase_of(text@), Role::Heading),
{
    Line::of(text.to_uppercase().as_str(), Role::Heading)
}

/// A label and a value, cut to the width that is left.
pub open spec fn kv_line(label: Seq<char>, value: Seq<char>, width: nat) -> LineView {
    let label_width = smaller(9, less(width as int, 1)) as nat;
    seq![
        sp(padded(label, label_width), Role::Faint),
        sp(fitted(value, less(width as int, label_width as int) as nat), Role::Text),
    ]
}

/// A label and a value, cut to the width that is left.
pub fn kv(label: &str, value: &str, width: usize) -> (r: Line)
    ensures
        r@ == kv_line(label@, value@, width as nat),
{
    let room: usize = width.saturating_sub(1);
    let label_width: usize = if 9 < room {
        9
    } else {
        room
    };
    let mut r = Line::new();
    r.push(pad(label, label_width).as_str(), Role::Faint);
    r.push(fit(value, width.saturating_sub(label_width)).as_str(), Role::Text);
    assert(r@ == kv_line(label@, value@, width as nat));
    r
}

/// A text and, hard against the right edge, another.
pub open spec fn spread_line(
    left: Seq<char>,
    right: Seq<char>,
    width: nat,
    role: Role,
) -> LineView {
    let shown = fitted(right, less(width as int, 2) as nat);
    let left_width = less(less(width as int, shown.len() as int), 1) as nat;
    seq![sp(padded(left, left_width), Role::Text), sp(seq![' '], Role::Text), sp(shown, role)]
}

/// A text and, hard against the right edge, another.
pub fn spread(left: &str, right: &str, width: usize, role: Role) -> (r: Line)
    ensures
        r@ == spread_line(left@, right@, width as nat, role),
{
    let shown = fit(right, width.saturating_sub(2));
    let used: usize = to_chars(shown.as_str()).len();
    let left_width: usize = width.saturating_sub(used).saturating_sub(1);
    let mut r = Line::new();
    r.push(pad(left, left_width).as_str(), Role::Text);
    proof {
        reveal_strlit(" ");
        assert(" "@ == seq![' ']);
    }
    r.push(" ", Role::Text);
    r.push(shown.as_str(), role);
    assert(r@ == spread_line(left@, right@, width as nat, role));
    r
}

/// A row that has both texts fills its width exactly.
pub proof fn a_spread_row_fills_its_width(
    left: Seq<char>,
    right: Seq<char>,
    width: nat,
    role: Role,
)
    requires
        width >= 1,
    ensures
        line_width(spread_line(left, right, width, role)) == width,
{
    let shown = fitted(right, less(width as int, 2) as nat);
    fitting_keeps_to_the_width(right, less(width as int, 2) as nat);
    let left_width = less(less(width as int, shown.len() as int), 1) as nat;
    crate::app::util::padding_reaches_the_width(left, left_width);
    let line = spread_line(left, right, width, role);
    let two = line.drop_last();
    let first = two.drop_last();
    assert(line.len() == 3 && two.len() == 2 && first.len() == 1);
    assert(first.drop_last() == blank());
    assert(line_width(blank()) == 0);
    assert(first.last().text == padded(left, left_width));
    assert(line_width(first) == left_width);
    assert(two.last().text == seq![' ']);
    assert(line_width(two) == line_width(first) + 1);
    assert(line.last().text == shown);
    assert(line_width(line) == line_width(two) + shown.len());
}

/// A line across the page.
pub fn rule(width: usize) -> (r: Line)
    ensures
        r@ == one(repeated('─', width as nat), Role::Faint),
{
    Line::of(repeat('─', width).as_str(), Role::Faint)
}

/// How much of a bar is filled: all of it at the maximum, and something as soon as there is
/// a value.
pub open spec fn filled(value: nat, maximum: nat, width: nat) -> nat {
    let most = if maximum == 0 {
        1
    } else {
        maximum
    };
    if value == 0 {
        0
    } else {
        smaller(((value * width + most - 1) / (most as int)) as int, width as int) as nat
    }
}

pub open spec fn meter_spans(value: nat, maximum: nat, width: nat) -> LineView {
    let full = filled(value, maximum, width);
    seq![
        sp(repeated('█', full), Role::Accent),
        sp(repeated('·', less(width as int, full as int) as nat), Role::Faint),
    ]
}

fn fill(value: usize, maximum: usize, width: usize) -> (r: usize)
    ensures
        r == filled(value as nat, maximum as nat, width as nat),
        r <= width,
{
    if value == 0 {
        return 0;
    }
    let most: u128 = if maximum == 0 {
        1
    } else {
        maximum as u128
    };
    assert(value * width <= 0xffff_ffff_ffff_ffff * 0xffff_ffff_ffff_ffff) by (nonlinear_arith)
        requires
            0 <= value <= 0xffff_ffff_ffff_ffff,
            0 <= width <= 0xffff_ffff_ffff_ffff,
    ;
    let product: u128 = value as u128 * width as u128;
    let share: u128 = (product + (most - 1)) / most;
    if share < width as u128 {
        share as usize
    } else {
        width
    }
}

/// A bar in proportion.
pub fn meter(value: usize, maximum: usize, width: usize) -> (r: Line)
    ensures
        r@ == meter_spans(value as nat, maximum as nat, width as nat),
{
    let full = fill(value, maximum, width);
    let mut r = Line::new();
    r.push(repeat('█', full).as_str(), Role::Accent);
    r.push(repeat('·', width - full).as_str(), Role::Faint);
    assert(r@ == meter_spans(value as nat, maximum as nat, width as nat));
    r
}

/// A bar is never longer than its width, is empty only for nothing, and is full at its
/// maximum.
pub proof fn a_bar_keeps_to_its_width(value: nat, maximum: nat, width: nat)
    ensures
        filled(value, maximum, width) <= width,
        width > 0 ==> (filled(value, maximum, width) == 0 <==> value == 0),
        0 < maximum <= value ==> filled(value, maximum, width) == width,
{
    let most = if maximum == 0 {
        1nat
    } else {
        maximum
    };
    if value > 0 {
        let total = value * width + most - 1;
        let share = total / (most as int);
        assert(total >= 0) by (nonlinear_arith)
            requires
                total == value * width + most - 1,
                most >= 1,
                value >= 0,
                width >= 0,
        ;
        assert(share >= 0) by (nonlinear_arith)
            requires
                share == total / (most as int),
                total >= 0,
                most >= 1,
        ;
        if width > 0 {
            assert(share >= 1) by (nonlinear_arith)
                requires
                    share == total / (most as int),
                    total == value * width + most - 1,
                    value >= 1,
                    width >= 1,
                    most >= 1,
            ;
        }
        if 0 < maximum <= value {
            assert(share >= width) by (nonlinear_arith)
                requires
                    share == total / (most as int),
                    total == value * width + most - 1,
                    value >= most,
                    most >= 1,
                    width >= 0,
            ;
        }
    }
}

/// The place of the cursor in a list, kept inside it.
pub open spec fn state_of(selected: Option<usize>, len: nat) -> Option<usize> {
    match selected {
        Some(index) => if len > 0 {
            Some(smaller(index as int, len - 1) as usize)
        } else {
            None
        },
        None => None,
    }
}

/// The place of the cursor in a list, kept inside it even where the list shrank.
pub fn list_state(selected: Option<usize>, len: usize) -> (r: Option<usize>)
    ensures
        r == state_of(selected, len as nat),
{
    match selected {
        Some(index) => if len > 0 {
            if index < len - 1 {
                Some(index)
            } else {
                Some(len - 1)
            }
        } else {
            None
        },
        None => None,
    }
}

/// The title of a pane, and the line below it that marks the focus.
pub open spec fn pane_title_lines(text: Seq<char>, focused: bool, width: nat) -> Seq<LineView> {
    seq![
        one(
            fitted(text, width),
            if focused {
                Role::Accent
            } else {
                Role::Heading
            },
        ),
        one(
            repeated(
                '─',
                if focused {
                    smaller(text.len() as int, width as int) as nat
                } else {
                    0
                },
            ),
            Role::Accent,
        ),
    ]
}

/// The title of a pane, and the line below it that marks the focus.
pub fn pane_title(text: &str, focused: bool, width: usize) -> (r: Vec<Line>)
    ensures
        lines_view(r@) == pane_title_lines(text@, focused, width as nat),
{
    let count: usize = to_chars(text).len();
    let length: usize = if !focused {
        0
    } else if count < width {
        count
    } else {
        width
    };
    let mut r = no_lines();
    push_text(
        &mut r,
        fit(text, width).as_str(),
        if focused {
            Role::Accent
        } else {
            Role::Heading
        },
    );
    push_text(&mut r, repeat('─', length).as_str(), Role::Accent);
    assert(lines_view(r@) == pane_title_lines(text@, focused, width as nat));
    r
}

pub open spec fn larger(a: int, b: int) -> int {
    if a > b {
        a
    } else {
        b
    }
}

/// A rectangle of at most the given size in the middle of an area.
pub open spec fn centered_in(area: Area, width: u16, height: u16) -> Area {
    let w = larger(smaller(width as int, less(area.width as int, 2)), 1);
    let h = larger(smaller(height as int, less(area.height as int, 2)), 1);
    Area {
        x: (area.x + less(area.width as int, w) / 2) as u16,
        y: (area.y + less(area.height as int, h) / 2) as u16,
        width: w as u16,
        height: h as u16,
    }
}

/// A rectangle of at most the given size in the middle of an area.
pub fn centered(area: Area, width: u16, height: u16) -> (r: Area)
    requires
        area.x + area.width <= u16::MAX,
        area.y + area.height <= u16::MAX,
    ensures
        r == centered_in(area, width, height),
{
    let room: u16 = area.width.saturating_sub(2);
    let w: u16 = if width < room {
        width
    } else {
        room
    };
    let w: u16 = if w > 1 {
        w
    } else {
        1
    };
    let room: u16 = area.height.saturating_sub(2);
    let h: u16 = if height < room {
        height
    } else {
        room
    };
    let h: u16 = if h > 1 {
        h
    } else {
        1
    };
    Area {
        x: area.x + area.width.saturating_sub(w) / 2,
        y: area.y + area.height.saturating_sub(h) / 2,
        width: w,
        height: h,
    }
}

/// What is centred in an area lies inside it, unless the area is empty.
pub proof fn a_centered_area_lies_inside(area: Area, width: u16, height: u16)
    requires
        area.width >= 1,
        area.height >= 1,
        area.x + area.width <= u16::MAX,
        area.y + area.height <= u16::MAX,
    ensures
        ({
            let r = centered_in(area, width, height);
            area.x <= r.x && r.x + r.width <= area.x + area.width && area.y <= r.y && r.y + r.height
                <= area.y + area.height
        }),
{
}

/// An area without the room at the left and right of a page.
pub fn gutter(area: Area) -> (r: Area)
    requires
        area.x <= u16::MAX - GUTTER,
    ensures
        r == (Area {
            x: (area.x + 2) as u16,
            width: less(area.width as int, 4) as u16,
            ..area
        }),
{
    Area { x: area.x + GUTTER, width: area.width.saturating_sub(4), y: area.y, height: area.height }
}

/// What a pane says where a list would be: what would appear here, and how.
pub open spec fn empty_lines(message: Seq<char>, hint: Seq<char>) -> Seq<LineView> {
    seq![blank(), one(message, Role::Dim), blank(), one(hint, Role::Faint)]
}

/// What a pane says where a list would be: what would appear here, and how.
pub fn empty_state(message: &str, hint: &str) -> (r: Vec<Line>)
    ensures
        lines_view(r@) == empty_lines(message@, hint@),
{
    let mut r = no_lines();
    push_blank(&mut r);
    push_text(&mut r, message, Role::Dim);
    push_blank(&mut r);
    push_text(&mut r, hint, Role::Faint);
    assert(lines_view(r@) == empty_lines(message@, hint@));
    r
}

} // verus!
