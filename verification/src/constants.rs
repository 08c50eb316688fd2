use vstd::prelude::*;

verus! {

/// Baseline ("comfort") column width: a column is never explicitly shrunk
/// below this many display columns unless its own maximum is smaller.
pub const MAX_UNFOLDED_COLUMN_WIDTH: usize = 7;

/// Display width of one frame glyph (the column separator).
pub const FRAME_CHAR_WIDTH: usize = 1;

pub open spec fn header_color_view() -> Seq<char> {
    "\u{1b}[37m"@
}

pub open spec fn even_line_color_view() -> Seq<char> {
    "\u{1b}[34m"@
}

pub open spec fn odd_line_color_view() -> Seq<char> {
    "\u{1b}[32m"@
}

pub open spec fn frame_color_view() -> Seq<char> {
    "\u{1b}[90m"@
}

pub open spec fn reset_color_view() -> Seq<char> {
    "\u{1b}[0m"@
}

/// The style token chosen for a row: the header style for line number 0,
/// else one of two styles by the parity of the line number.
pub open spec fn text_color_view(line_number: nat) -> Seq<char> {
    if line_number == 0 {
        header_color_view()
    } else if line_number % 2 == 0 {
        even_line_color_view()
    } else {
        odd_line_color_view()
    }
}

pub fn header_color() -> (r: &'static str)
    ensures
        r@ == header_color_view(),
{
    "\u{1b}[37m"
}

pub fn frame_color() -> (r: &'static str)
    ensures
        r@ == frame_color_view(),
{
    "\u{1b}[90m"
}

pub fn reset_color() -> (r: &'static str)
    ensures
        r@ == reset_color_view(),
{
    "\u{1b}[0m"
}

pub fn text_color(line_number: usize) -> (r: &'static str)
    ensures
        r@ == text_color_view(line_number as nat),
{
    if line_number == 0 {
        "\u{1b}[37m"
    } else if line_number % 2 == 0 {
        "\u{1b}[34m"
    } else {
        "\u{1b}[32m"
    }
}

pub open spec fn vertical_view() -> Seq<char> {
    "\u{2502}"@
}

pub open spec fn horizontal_view() -> Seq<char> {
    "\u{2500}"@
}

pub open spec fn crossing_top_view() -> Seq<char> {
    "\u{252c}"@
}

pub open spec fn crossing_bottom_view() -> Seq<char> {
    "\u{2534}"@
}

pub open spec fn crossing_middle_view() -> Seq<char> {
    "\u{253c}"@
}

pub fn vertical() -> (r: &'static str)
    ensures
        r@ == vertical_view(),
{
    "\u{2502}"
}

pub fn horizontal() -> (r: &'static str)
    ensures
        r@ == horizontal_view(),
{
    "\u{2500}"
}

pub fn crossing_top() -> (r: &'static str)
    ensures
        r@ == crossing_top_view(),
{
    "\u{252c}"
}

pub fn crossing_bottom() -> (r: &'static str)
    ensures
        r@ == crossing_bottom_view(),
{
    "\u{2534}"
}

pub fn crossing_middle() -> (r: &'static str)
    ensures
        r@ == crossing_middle_view(),
{
    "\u{253c}"
}

} // verus!
