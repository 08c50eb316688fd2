use vstd::prelude::*;
use vstd::string::StrSliceExecFns;
use vstd::string::StringExecFns;
use crate::constants::frame_color;
use crate::constants::frame_color_view;
use crate::constants::horizontal;
use crate::constants::horizontal_view;
use crate::constants::reset_color;
use crate::constants::reset_color_view;
use crate::constants::text_color;
use crate::constants::text_color_view;
use crate::constants::vertical;
use crate::constants::vertical_view;
use crate::unicode::display_width;
use crate::unicode::display_width_of;
use crate::unicode::split_graphemes;
use crate::unicode::graphemes_of;

verus! {

/// `s` repeated `n` times; empty for `n <= 0`.
pub open spec fn repeat_view(s: Seq<char>, n: int) -> Seq<char>
    decreases n,
{
    if n <= 0 {
        Seq::empty()
    } else {
        repeat_view(s, n - 1) + s
    }
}

/// Space padding of the given length.
pub open spec fn spaces(n: int) -> Seq<char> {
    repeat_view(" "@, n)
}

/// A bar of `count` copies of `s`.
pub fn format_str_bar(s: &str, count: usize) -> (r: String)
    ensures
        r@ == repeat_view(s@, count as int),
{
    let mut r = String::new();
    let mut i: usize = 0;
    while i < count
        invariant
            i <= count,
            r@ == repeat_view(s@, i as int),
        decreases count - i,
    {
        r.append(s);
        i = i + 1;
    }
    r
}

/// Every character is an ASCII decimal digit (vacuously true of an empty
/// string).
pub open spec fn all_digits_spec(s: Seq<char>) -> bool {
    forall|i: int| 0 <= i < s.len() ==> '0' <= #[trigger] s[i] && s[i] <= '9'
}

/// A cell is rendered right-aligned exactly when it is nonempty and all
/// digits; an empty cell is not numeric.
pub open spec fn is_numeric_cell(s: Seq<char>) -> bool {
    s.len() > 0 && all_digits_spec(s)
}

/// Whether every character of `text` is an ASCII decimal digit.
pub fn all_digits(text: &str) -> (r: bool)
    ensures
        r == all_digits_spec(text@),
{
    let len = text.unicode_len();
    let mut i: usize = 0;
    while i < len
        invariant
            i <= len,
            len == text@.len(),
            forall|j: int| 0 <= j < i ==> '0' <= #[trigger] text@[j] && text@[j] <= '9',
        decreases len - i,
    {
        let c = text.get_char(i);
        if c < '0' || c > '9' {
            return false;
        }
        i = i + 1;
    }
    true
}

/// The decimal digit character for `d` in 0..10.
pub open spec fn digit_char(d: int) -> char {
    if d == 0 {
        '0'
    } else if d == 1 {
        '1'
    } else if d == 2 {
        '2'
    } else if d == 3 {
        '3'
    } else if d == 4 {
        '4'
    } else if d == 5 {
        '5'
    } else if d == 6 {
        '6'
    } else if d == 7 {
        '7'
    } else if d == 8 {
        '8'
    } else {
        '9'
    }
}

/// The decimal digits of `n`, most significant first.
pub open spec fn dec_str_of(n: int) -> Seq<char>
    decreases n,
    when n >= 0
    via dec_str_of_decreases
{
    if n < 10 {
        seq![digit_char(n)]
    } else {
        dec_str_of(n / 10).push(digit_char(n % 10))
    }
}

#[via_fn]
proof fn dec_str_of_decreases(n: int) {
    assert(n >= 10 ==> 0 <= n / 10 < n) by (nonlinear_arith);
}

fn digit_str(d: usize) -> (r: &'static str)
    requires
        d < 10,
    ensures
        r@ == seq![digit_char(d as int)],
{
    if d == 0 {
        proof {
            reveal_strlit("0");
            assert("0"@ =~= seq![digit_char(0)]);
        }
        "0"
    } else if d == 1 {
        proof {
            reveal_strlit("1");
            assert("1"@ =~= seq![digit_char(1)]);
        }
        "1"
    } else if d == 2 {
        proof {
            reveal_strlit("2");
            assert("2"@ =~= seq![digit_char(2)]);
        }
        "2"
    } else if d == 3 {
        proof {
            reveal_strlit("3");
            assert("3"@ =~= seq![digit_char(3)]);
        }
        "3"
    } else if d == 4 {
        proof {
            reveal_strlit("4");
            assert("4"@ =~= seq![digit_char(4)]);
        }
        "4"
    } else if d == 5 {
        proof {
            reveal_strlit("5");
            assert("5"@ =~= seq![digit_char(5)]);
        }
        "5"
    } else if d == 6 {
        proof {
            reveal_strlit("6");
            assert("6"@ =~= seq![digit_char(6)]);
        }
        "6"
    } else if d == 7 {
        proof {
            reveal_strlit("7");
            assert("7"@ =~= seq![digit_char(7)]);
        }
        "7"
    } else if d == 8 {
        proof {
            reveal_strlit("8");
            assert("8"@ =~= seq![digit_char(8)]);
        }
        "8"
    } else {
        proof {
            reveal_strlit("9");
            assert("9"@ =~= seq![digit_char(9)]);
        }
        "9"
    }
}

/// The line number written in decimal.
fn usize_to_string(n: usize) -> (r: String)
    ensures
        r@ == dec_str_of(n as int),
    decreases n,
{
    if n < 10 {
        String::from_str(digit_str(n))
    } else {
        proof {
            assert(0 <= n as int / 10 < n as int) by (nonlinear_arith)
                requires
                    n >= 10,
            ;
        }
        let mut s = usize_to_string(n / 10);
        let d = digit_str(n % 10);
        s.append(d);
        proof {
            assert(n as int % 10 < 10 && n as int % 10 >= 0) by (nonlinear_arith);
            assert(s@ =~= dec_str_of(n as int / 10).push(digit_char(n as int % 10)));
        }
        s
    }
}

/// The columns part of a horizontal frame line: a bar as wide as each
/// column, with a crossing glyph between columns.
pub open spec fn hl_cols_view(crossing: Seq<char>, widths: Seq<usize>, ci: int) -> Seq<char>
    decreases widths.len() - ci,
{
    if ci < 0 || ci >= widths.len() {
        Seq::empty()
    } else {
        repeat_view(horizontal_view(), widths[ci] as int) + (if ci + 1 < widths.len() {
            crossing
        } else {
            Seq::empty()
        }) + hl_cols_view(crossing, widths, ci + 1)
    }
}

/// One whole horizontal frame line, gutter bar included when a line-number
/// gutter is drawn.
pub open spec fn horizontal_line_view(crossing: Seq<char>, widths: Seq<usize>, lw: int) -> Seq<
    char,
> {
    frame_color_view() + (if lw > 0 {
        repeat_view(horizontal_view(), lw) + crossing
    } else {
        Seq::empty()
    }) + hl_cols_view(crossing, widths, 0) + reset_color_view()
}

/// Draws one horizontal separator line consistent with the allocated widths,
/// using the given crossing glyph at the gutter boundary and between columns.
pub fn print_horizontal_line(
    crossing: &str,
    column_widths: &Vec<usize>,
    linenum_width: usize,
) -> (r: String)
    ensures
        r@ == horizontal_line_view(crossing@, column_widths@, linenum_width as int),
{
    let mut line = String::new();
    line.append(frame_color());
    if linenum_width > 0 {
        let bar = format_str_bar(horizontal(), linenum_width);
        line.append(bar.as_str());
        line.append(crossing);
    }
    let ghost prefix = line@;
    proof {
        assert(prefix =~= frame_color_view() + (if linenum_width > 0 {
            repeat_view(horizontal_view(), linenum_width as int) + crossing@
        } else {
            Seq::<char>::empty()
        }));
    }
    let column_count = column_widths.len();
    let mut ci: usize = 0;
    while ci < column_count
        invariant
            ci <= column_count,
            column_count == column_widths@.len(),
            prefix + hl_cols_view(crossing@, column_widths@, 0) =~= line@ + hl_cols_view(
                crossing@,
                column_widths@,
                ci as int,
            ),
        decreases column_count - ci,
    {
        let ghost old_line = line@;
        let bar = format_str_bar(horizontal(), column_widths[ci]);
        line.append(bar.as_str());
        if ci + 1 < column_count {
            line.append(crossing);
        }
        proof {
            let w = column_widths@;
            let cr: Seq<char> = if ci + 1 < column_count {
                crossing@
            } else {
                Seq::<char>::empty()
            };
            assert(line@ =~= old_line + (repeat_view(horizontal_view(), w[ci as int] as int)
                + cr));
            assert(old_line + hl_cols_view(crossing@, w, ci as int) =~= line@ + hl_cols_view(
                crossing@,
                w,
                ci + 1,
            ));
        }
        ci = ci + 1;
    }
    line.append(reset_color());
    proof {
        assert(hl_cols_view(crossing@, column_widths@, column_count as int) =~= Seq::<
            char,
        >::empty());
        assert(line@ =~= horizontal_line_view(
            crossing@,
            column_widths@,
            linenum_width as int,
        ));
    }
    line
}

/// Sum of the display widths of a run of clusters (a fragment of one pass).
pub open spec fn frag_width(gs: Seq<Seq<char>>) -> int
    decreases gs.len(),
{
    if gs.len() == 0 {
        0
    } else {
        frag_width(gs.drop_last()) + display_width_of(gs.last())
    }
}

/// The index just past the clusters one pass consumes, scanning from `i`
/// with width `w` already accumulated: a cluster is taken while nothing has
/// been taken yet or it still fits the allocated width.
pub open spec fn wrap_ext(gs: Seq<Seq<char>>, i: int, w: int, width: int) -> int
    decreases gs.len() - i,
{
    if 0 <= i < gs.len() && (w == 0 || w + display_width_of(gs[i]) <= width) {
        wrap_ext(gs, i + 1, w + display_width_of(gs[i]), width)
    } else {
        i
    }
}

/// Where the pass that starts at `from` ends.
pub open spec fn wrap_end(gs: Seq<Seq<char>>, from: int, width: int) -> int {
    wrap_ext(gs, from, 0, width)
}

pub proof fn lemma_wrap_ext_range(gs: Seq<Seq<char>>, i: int, w: int, width: int)
    ensures
        i <= wrap_ext(gs, i, w, width),
        i <= gs.len() ==> wrap_ext(gs, i, w, width) <= gs.len(),
    decreases gs.len() - i,
{
    if 0 <= i < gs.len() && (w == 0 || w + display_width_of(gs[i]) <= width) {
        lemma_wrap_ext_range(gs, i + 1, w + display_width_of(gs[i]), width);
    }
}

/// A pass that starts inside the cluster sequence always consumes at least
/// one cluster: rendering can never stall.
pub proof fn lemma_wrap_end_progress(gs: Seq<Seq<char>>, from: int, width: int)
    requires
        0 <= from < gs.len(),
    ensures
        from < wrap_end(gs, from, width) <= gs.len(),
{
    lemma_wrap_ext_range(gs, from + 1, display_width_of(gs[from]) as int, width);
}

/// The text of one rendered cell fragment: the clusters, space-padded to the
/// allocated width, padding before the content when right-aligned and after
/// it otherwise.  An oversized fragment gets no padding.
pub open spec fn cell_text(frag: Seq<Seq<char>>, width: int, right: bool) -> Seq<char> {
    if right {
        spaces(width - frag_width(frag)) + frag.flatten()
    } else {
        frag.flatten() + spaces(width - frag_width(frag))
    }
}

/// The gutter of one pass: the line number, right-aligned, on the first
/// pass of a numbered row, else blank space, followed by the frame glyph.
pub open spec fn gutter_view(ln: nat, lw: int, first: bool) -> Seq<char> {
    if lw <= 0 {
        Seq::empty()
    } else {
        text_color_view(ln) + (if ln != 0 && first {
            spaces(lw - dec_str_of(ln as int).len()) + dec_str_of(ln as int)
        } else {
            spaces(lw)
        }) + frame_color_view() + vertical_view()
    }
}

/// One column's part of one pass: its styled, padded fragment, with a
/// separator after it unless it is the last column.
pub open spec fn col_segment(
    subcells: Seq<Seq<Seq<char>>>,
    dones: Seq<int>,
    todos: Seq<int>,
    widths: Seq<usize>,
    aligns: Seq<bool>,
    ln: nat,
    ci: int,
) -> Seq<char> {
    let frag = subcells[ci].subrange(dones[ci], todos[ci]);
    text_color_view(ln) + cell_text(frag, widths[ci] as int, aligns[ci]) + (if ci + 1
        < widths.len() {
        frame_color_view() + vertical_view()
    } else {
        Seq::empty()
    })
}

pub open spec fn cols_view(
    subcells: Seq<Seq<Seq<char>>>,
    dones: Seq<int>,
    todos: Seq<int>,
    widths: Seq<usize>,
    aligns: Seq<bool>,
    ln: nat,
    ci: int,
) -> Seq<char>
    decreases widths.len() - ci,
{
    if ci < 0 || ci >= widths.len() {
        Seq::empty()
    } else {
        col_segment(subcells, dones, todos, widths, aligns, ln, ci) + cols_view(
            subcells,
            dones,
            todos,
            widths,
            aligns,
            ln,
            ci + 1,
        )
    }
}

/// One whole physical output line of a row.
pub open spec fn line_view(
    subcells: Seq<Seq<Seq<char>>>,
    dones: Seq<int>,
    todos: Seq<int>,
    widths: Seq<usize>,
    aligns: Seq<bool>,
    ln: nat,
    lw: int,
    first: bool,
) -> Seq<char> {
    gutter_view(ln, lw, first) + cols_view(subcells, dones, todos, widths, aligns, ln, 0)
        + reset_color_view()
}

/// Where every column's next pass ends, all columns advancing in lockstep.
pub open spec fn todos_of(
    subcells: Seq<Seq<Seq<char>>>,
    dones: Seq<int>,
    widths: Seq<usize>,
) -> Seq<int> {
    Seq::new(dones.len(), |ci: int| wrap_end(subcells[ci], dones[ci], widths[ci] as int))
}

/// Whether any column still has unconsumed clusters.
pub open spec fn any_unfinished(subcells: Seq<Seq<Seq<char>>>, dones: Seq<int>) -> bool {
    exists|ci: int| 0 <= ci < dones.len() && dones[ci] < subcells[ci].len()
}

/// Every cursor within its column's bounds.
pub open spec fn dones_wf(subcells: Seq<Seq<Seq<char>>>, dones: Seq<int>) -> bool {
    forall|ci: int|
        0 <= ci < dones.len() ==> 0 <= #[trigger] dones[ci] <= subcells[ci].len()
}

pub open spec fn remaining_from(subcells: Seq<Seq<Seq<char>>>, dones: Seq<int>, ci: int) -> int
    decreases dones.len() - ci,
{
    if ci < 0 || ci >= dones.len() {
        0
    } else {
        (if dones[ci] < subcells[ci].len() {
            subcells[ci].len() - dones[ci]
        } else {
            0
        }) + remaining_from(subcells, dones, ci + 1)
    }
}

/// Total count of unconsumed clusters: the renderer's termination measure.
pub open spec fn remaining(subcells: Seq<Seq<Seq<char>>>, dones: Seq<int>) -> int {
    remaining_from(subcells, dones, 0)
}

proof fn lemma_remaining_from_nonneg(subcells: Seq<Seq<Seq<char>>>, dones: Seq<int>, ci: int)
    ensures
        remaining_from(subcells, dones, ci) >= 0,
    decreases dones.len() - ci,
{
    if 0 <= ci < dones.len() {
        lemma_remaining_from_nonneg(subcells, dones, ci + 1);
    }
}

proof fn lemma_remaining_from_lt(
    subcells: Seq<Seq<Seq<char>>>,
    dones: Seq<int>,
    todos: Seq<int>,
    ci: int,
    cw: int,
)
    requires
        todos.len() == dones.len(),
        forall|c: int| 0 <= c < dones.len() ==> #[trigger] todos[c] >= dones[c],
        0 <= ci <= cw < dones.len(),
        dones[cw] < subcells[cw].len(),
        todos[cw] > dones[cw],
    ensures
        remaining_from(subcells, todos, ci) < remaining_from(subcells, dones, ci),
    decreases dones.len() - ci,
{
    if ci == cw {
        lemma_remaining_from_le(subcells, dones, todos, ci + 1);
    } else {
        lemma_remaining_from_lt(subcells, dones, todos, ci + 1, cw);
    }
}

proof fn lemma_remaining_from_le(
    subcells: Seq<Seq<Seq<char>>>,
    dones: Seq<int>,
    todos: Seq<int>,
    ci: int,
)
    requires
        todos.len() == dones.len(),
        forall|c: int| 0 <= c < dones.len() ==> #[trigger] todos[c] >= dones[c],
    ensures
        remaining_from(subcells, todos, ci) <= remaining_from(subcells, dones, ci),
    decreases dones.len() - ci,
{
    if 0 <= ci < dones.len() {
        lemma_remaining_from_le(subcells, dones, todos, ci + 1);
    }
}

/// Advancing the lockstep cursors strictly shrinks the termination measure.
pub proof fn lemma_remaining_decreases(
    subcells: Seq<Seq<Seq<char>>>,
    dones: Seq<int>,
    widths: Seq<usize>,
)
    requires
        dones_wf(subcells, dones),
        any_unfinished(subcells, dones),
    ensures
        dones_wf(subcells, todos_of(subcells, dones, widths)),
        0 <= remaining(subcells, todos_of(subcells, dones, widths)) < remaining(
            subcells,
            dones,
        ),
{
    let todos = todos_of(subcells, dones, widths);
    assert forall|c: int| 0 <= c < dones.len() implies #[trigger] todos[c] >= dones[c] && 0
        <= todos[c] <= subcells[c].len() by {
        lemma_wrap_ext_range(subcells[c], dones[c], 0, widths[c] as int);
    }
    let cw = choose|ci: int| 0 <= ci < dones.len() && dones[ci] < subcells[ci].len();
    lemma_wrap_end_progress(subcells[cw], dones[cw], widths[cw] as int);
    lemma_remaining_from_lt(subcells, dones, todos, 0, cw);
    lemma_remaining_from_nonneg(subcells, todos, 0);
}

/// All the physical lines a row renders to, from the given cursors on: one
/// line per pass while any column has content left, all columns advancing
/// together, finished columns rendering blank.
pub open spec fn render_passes(
    subcells: Seq<Seq<Seq<char>>>,
    dones: Seq<int>,
    widths: Seq<usize>,
    aligns: Seq<bool>,
    ln: nat,
    lw: int,
    first: bool,
) -> Seq<Seq<char>>
    decreases remaining(subcells, dones),
    when dones_wf(subcells, dones)
    via render_passes_decreases
{
    if !any_unfinished(subcells, dones) {
        Seq::empty()
    } else {
        let todos = todos_of(subcells, dones, widths);
        seq![line_view(subcells, dones, todos, widths, aligns, ln, lw, first)] + render_passes(
            subcells,
            todos,
            widths,
            aligns,
            ln,
            lw,
            false,
        )
    }
}

#[via_fn]
proof fn render_passes_decreases(
    subcells: Seq<Seq<Seq<char>>>,
    dones: Seq<int>,
    widths: Seq<usize>,
    aligns: Seq<bool>,
    ln: nat,
    lw: int,
    first: bool,
) {
    if any_unfinished(subcells, dones) {
        lemma_remaining_decreases(subcells, dones, widths);
    }
}

/// Cursor at 0 for every column.
pub open spec fn zeros(k: int) -> Seq<int> {
    Seq::new(k as nat, |i: int| 0)
}

/// The fragment column `ci` contributes to each successive pass: exactly the
/// slice `dones[ci] .. todos[ci]` that `render_passes` lays into that
/// column, pass for pass.
pub open spec fn column_fragments(
    subcells: Seq<Seq<Seq<char>>>,
    dones: Seq<int>,
    widths: Seq<usize>,
    ci: int,
) -> Seq<Seq<Seq<char>>>
    decreases remaining(subcells, dones),
    when dones_wf(subcells, dones)
    via column_fragments_decreases
{
    if !any_unfinished(subcells, dones) {
        Seq::empty()
    } else {
        let todos = todos_of(subcells, dones, widths);
        seq![subcells[ci].subrange(dones[ci], todos[ci])] + column_fragments(
            subcells,
            todos,
            widths,
            ci,
        )
    }
}

#[via_fn]
proof fn column_fragments_decreases(
    subcells: Seq<Seq<Seq<char>>>,
    dones: Seq<int>,
    widths: Seq<usize>,
    ci: int,
) {
    if any_unfinished(subcells, dones) {
        lemma_remaining_decreases(subcells, dones, widths);
    }
}

/// Each pass of `render_passes` carries one fragment of every column.
pub proof fn lemma_one_fragment_per_pass(
    subcells: Seq<Seq<Seq<char>>>,
    dones: Seq<int>,
    widths: Seq<usize>,
    aligns: Seq<bool>,
    ln: nat,
    lw: int,
    first: bool,
    ci: int,
)
    requires
        dones_wf(subcells, dones),
    ensures
        column_fragments(subcells, dones, widths, ci).len() == render_passes(
            subcells,
            dones,
            widths,
            aligns,
            ln,
            lw,
            first,
        ).len(),
    decreases remaining(subcells, dones),
{
    if any_unfinished(subcells, dones) {
        let todos = todos_of(subcells, dones, widths);
        lemma_remaining_decreases(subcells, dones, widths);
        lemma_one_fragment_per_pass(subcells, todos, widths, aligns, ln, lw, false, ci);
    }
}

proof fn lemma_column_fragments_flatten(
    subcells: Seq<Seq<Seq<char>>>,
    dones: Seq<int>,
    widths: Seq<usize>,
    ci: int,
)
    requires
        dones_wf(subcells, dones),
        0 <= ci < dones.len(),
    ensures
        column_fragments(subcells, dones, widths, ci).flatten() == subcells[ci].subrange(
            dones[ci],
            subcells[ci].len() as int,
        ),
    decreases remaining(subcells, dones),
{
    if !any_unfinished(subcells, dones) {
        assert(!(dones[ci] < subcells[ci].len()));
        assert(column_fragments(subcells, dones, widths, ci).flatten()
            =~= subcells[ci].subrange(dones[ci], subcells[ci].len() as int));
    } else {
        let todos = todos_of(subcells, dones, widths);
        lemma_remaining_decreases(subcells, dones, widths);
        lemma_column_fragments_flatten(subcells, todos, widths, ci);
        let head = subcells[ci].subrange(dones[ci], todos[ci]);
        let rest = column_fragments(subcells, todos, widths, ci);
        assert(column_fragments(subcells, dones, widths, ci) == seq![head] + rest);
        assert((seq![head] + rest).drop_first() =~= rest);
        assert((seq![head] + rest).flatten() =~= head + rest.flatten());
        assert(dones[ci] <= todos[ci] <= subcells[ci].len()) by {
            lemma_wrap_ext_range(subcells[ci], dones[ci], 0, widths[ci] as int);
        }
        assert(head + subcells[ci].subrange(todos[ci], subcells[ci].len() as int)
            =~= subcells[ci].subrange(dones[ci], subcells[ci].len() as int));
    }
}

/// Law: rendering loses and duplicates nothing — concatenating the
/// fragments one column contributes across all the passes of its row
/// reproduces that column's grapheme-cluster sequence exactly, whatever the
/// allocated widths.
pub proof fn lemma_render_reconstructs_column(
    subcells: Seq<Seq<Seq<char>>>,
    widths: Seq<usize>,
    ci: int,
)
    requires
        0 <= ci < subcells.len(),
    ensures
        column_fragments(subcells, zeros(subcells.len() as int), widths, ci).flatten()
            == subcells[ci],
{
    let k = subcells.len() as int;
    assert(dones_wf(subcells, zeros(k)));
    lemma_column_fragments_flatten(subcells, zeros(k), widths, ci);
    assert(subcells[ci].subrange(0, subcells[ci].len() as int) =~= subcells[ci]);
}

/// Each cell split into grapheme clusters; an empty row renders as one
/// blank cell; the row is then padded or truncated to the column count.
pub open spec fn subcells_of(cells: Seq<Seq<char>>, k: int) -> Seq<Seq<Seq<char>>> {
    let base = if cells.len() == 0 {
        seq![seq![" "@]]
    } else {
        cells.map_values(|c: Seq<char>| graphemes_of(c))
    };
    if base.len() >= k {
        base.take(k)
    } else {
        base + Seq::new((k - base.len()) as nat, |i: int| Seq::<Seq<char>>::empty())
    }
}

/// The per-cell alignment decisions: right-aligned exactly for a present,
/// nonempty, all-digit cell.
pub open spec fn aligns_of(cells: Seq<Seq<char>>, k: int) -> Seq<bool> {
    Seq::new(k as nat, |ci: int| 0 <= ci < cells.len() && is_numeric_cell(cells[ci]))
}

/// Everything `print_line` emits for one logical row.
pub open spec fn print_line_view(
    ln: nat,
    cells: Seq<Seq<char>>,
    widths: Seq<usize>,
    lw: int,
) -> Seq<Seq<char>> {
    let k = widths.len() as int;
    render_passes(subcells_of(cells, k), zeros(k), widths, aligns_of(cells, k), ln, lw, true)
}

/// A usize cursor vector, as the mathematical cursors it stands for.
pub open spec fn to_ints(s: Seq<usize>) -> Seq<int> {
    s.map_values(|d: usize| d as int)
}

fn any_unfinished_exec(subcells: &Vec<Vec<String>>, dones: &Vec<usize>) -> (r: bool)
    requires
        dones@.len() == subcells.deep_view().len(),
    ensures
        r == any_unfinished(subcells.deep_view(), to_ints(dones@)),
{
    let ghost s = subcells.deep_view();
    let ghost di = to_ints(dones@);
    let k = dones.len();
    let mut any = false;
    let mut ci: usize = 0;
    while ci < k
        invariant
            ci <= k,
            k == dones@.len(),
            dones@.len() == s.len(),
            s == subcells.deep_view(),
            di == to_ints(dones@),
            any == exists|c: int| 0 <= c < ci && di[c] < s[c].len(),
        decreases k - ci,
    {
        let ghost old_any = any;
        if dones[ci] < subcells[ci].len() {
            proof {
                assert(s[ci as int] == subcells@[ci as int].deep_view());
                assert(di[ci as int] == dones@[ci as int] as int);
                assert(di[ci as int] < s[ci as int].len());
            }
            any = true;
        }
        proof {
            assert(s[ci as int] == subcells@[ci as int].deep_view());
            assert(di[ci as int] == dones@[ci as int] as int);
            if any {
                if old_any {
                    let w = choose|c: int| 0 <= c < ci && di[c] < s[c].len();
                    assert(0 <= w < ci + 1 && di[w] < s[w].len());
                } else {
                    assert(di[ci as int] < s[ci as int].len());
                }
            } else {
                assert(forall|c: int| 0 <= c < ci + 1 ==> !(di[c] < s[c].len()));
            }
        }
        ci = ci + 1;
    }
    any
}

/// Appends the clusters `done .. todo` of one column to the line.
fn append_fragment(line: &mut String, column: &Vec<String>, done: usize, todo: usize)
    requires
        done <= todo <= column@.len(),
    ensures
        final(line)@ == old(line)@ + column.deep_view().subrange(
            done as int,
            todo as int,
        ).flatten(),
{
    let ghost gs = column.deep_view();
    let mut ii = done;
    proof {
        assert(gs.subrange(done as int, done as int) =~= Seq::<Seq<char>>::empty());
        assert(line@ =~= old(line)@ + gs.subrange(done as int, done as int).flatten());
    }
    while ii < todo
        invariant
            done <= ii <= todo,
            todo <= column@.len(),
            gs == column.deep_view(),
            line@ == old(line)@ + gs.subrange(done as int, ii as int).flatten(),
        decreases todo - ii,
    {
        line.append(column[ii].as_str());
        proof {
            let pre = gs.subrange(done as int, ii as int);
            assert(gs[ii as int] == column@[ii as int]@);
            assert(gs.subrange(done as int, ii + 1) =~= pre.push(gs[ii as int]));
            pre.lemma_flatten_push(gs[ii as int]);
        }
        ii = ii + 1;
    }
}

/// Renders one logical row against the allocated widths and the line-number
/// gutter: one or more styled physical lines, every cell wrapped to its
/// column's width with no grapheme cluster split, all columns advancing in
/// lockstep, finished columns rendering blank.
pub fn print_line(
    line_number: usize,
    cells: &Vec<String>,
    column_widths: &Vec<usize>,
    linenum_width: usize,
) -> (r: Vec<String>)
    ensures
        r@.map_values(|l: String| l@) == print_line_view(
            line_number as nat,
            cells.deep_view(),
            column_widths@,
            linenum_width as int,
        ),
{
    let ghost cdv = cells.deep_view();
    let ghost lnn = line_number as nat;
    let ghost lwi = linenum_width as int;
    let column_count = column_widths.len();
    let ghost k = column_count as int;
    let ghost wv = column_widths@;

    // split each cell into grapheme clusters
    let mut subcells: Vec<Vec<String>> = Vec::new();
    let mut idx: usize = 0;
    while idx < cells.len()
        invariant
            idx <= cells@.len(),
            cdv == cells.deep_view(),
            subcells@.len() == idx,
            forall|i: int|
                0 <= i < idx ==> subcells.deep_view()[i] == graphemes_of(#[trigger] cdv[i]),
        decreases cells@.len() - idx,
    {
        let gvec = split_graphemes(cells[idx].as_str());
        proof {
            assert(gvec.deep_view() =~= gvec@.map_values(|g: String| g@));
            assert(cells@[idx as int]@ == cdv[idx as int]);
        }
        subcells.push(gvec);
        proof {
            assert(forall|i: int|
                0 <= i < idx ==> subcells.deep_view()[i] == graphemes_of(#[trigger] cdv[i]));
            assert(subcells.deep_view()[idx as int] == gvec.deep_view());
        }
        idx = idx + 1;
    }
    if subcells.len() == 0 {
        let mut single: Vec<String> = Vec::new();
        single.push(String::from_str(" "));
        proof {
            assert(single.deep_view() =~= seq![" "@]);
        }
        subcells.push(single);
    }
    let ghost base = if cdv.len() == 0 {
        seq![seq![" "@]]
    } else {
        cdv.map_values(|c: Seq<char>| graphemes_of(c))
    };
    proof {
        assert(subcells.deep_view() =~= base);
    }

    // pad or truncate to the column count
    proof {
        assert(base.take(base.len() as int) =~= base);
    }
    if subcells.len() > column_count {
        while subcells.len() > column_count
            invariant
                column_count <= subcells@.len() <= base.len(),
                subcells.deep_view() == base.take(subcells@.len() as int),
            decreases subcells@.len(),
        {
            subcells.pop();
            proof {
                assert(subcells.deep_view() =~= base.take(subcells@.len() as int));
            }
        }
    }
    while subcells.len() < column_count
        invariant
            base.len() <= column_count ==> base.len() <= subcells@.len() <= column_count
                && subcells.deep_view() =~~= base + Seq::new(
                (subcells@.len() - base.len()) as nat,
                |i: int| Seq::<Seq<char>>::empty(),
            ),
            base.len() > column_count ==> subcells@.len() == column_count
                && subcells.deep_view() == base.take(column_count as int),
        decreases column_count - subcells@.len(),
    {
        let ghost old_deep = subcells.deep_view();
        let ghost old_len = subcells@.len() as int;
        subcells.push(Vec::new());
        proof {
            assert(subcells@.len() == old_len + 1);
            assert forall|i: int| 0 <= i < old_len implies subcells.deep_view()[i]
                == old_deep[i] by {
                assert(subcells@[i] == subcells@.drop_last()[i]);
            }
            assert(subcells.deep_view()[old_len] =~= Seq::<Seq<char>>::empty());
            let rhs_old = base + Seq::new(
                (old_len - base.len()) as nat,
                |i: int| Seq::<Seq<char>>::empty(),
            );
            let rhs_new = base + Seq::new(
                (old_len + 1 - base.len()) as nat,
                |i: int| Seq::<Seq<char>>::empty(),
            );
            assert(old_deep == rhs_old);
            assert(rhs_new.len() == old_len + 1);
            assert(subcells.deep_view().len() == old_len + 1);
            assert forall|i: int| 0 <= i < old_len + 1 implies subcells.deep_view()[i]
                =~= rhs_new[i] by {
                if i < base.len() {
                    assert(rhs_new[i] == base[i]);
                    assert(old_deep[i] == rhs_old[i]);
                } else if i < old_len {
                    assert(rhs_new[i] =~= Seq::<Seq<char>>::empty());
                    assert(old_deep[i] == rhs_old[i]);
                    assert(rhs_old[i] =~= Seq::<Seq<char>>::empty());
                } else {
                    assert(rhs_new[i] =~= Seq::<Seq<char>>::empty());
                }
            }
            assert(subcells.deep_view() =~~= rhs_new);
            assert(subcells.deep_view() =~~= base + Seq::new(
                (subcells@.len() - base.len()) as nat,
                |i: int| Seq::<Seq<char>>::empty(),
            ));
        }
    }
    let ghost s = subcells.deep_view();
    proof {
        if base.len() >= k {
            assert(s =~~= base.take(k));
        } else {
            assert(s =~~= base + Seq::new((k - base.len()) as nat, |i: int| Seq::<Seq<
                char,
            >>::empty()));
        }
        assert(s == subcells_of(cdv, k));
        assert(s.len() == k);
    }

    // per-cell alignment decisions
    let mut right_aligns: Vec<bool> = Vec::new();
    let mut ca: usize = 0;
    while ca < column_count
        invariant
            ca <= column_count,
            cdv == cells.deep_view(),
            right_aligns@.len() == ca,
            forall|c: int|
                0 <= c < ca ==> #[trigger] right_aligns@[c] == (0 <= c < cdv.len()
                    && is_numeric_cell(cdv[c])),
        decreases column_count - ca,
    {
        let ra = if ca < cells.len() {
            let cell = cells[ca].as_str();
            let nonempty = cell.unicode_len() > 0;
            nonempty && all_digits(cell)
        } else {
            false
        };
        proof {
            if ca < cdv.len() {
                assert(cdv[ca as int] == cells@[ca as int]@);
            }
        }
        right_aligns.push(ra);
        ca = ca + 1;
    }
    let ghost av = right_aligns@;
    proof {
        assert(av =~= aligns_of(cdv, k));
    }

    // all cursors start at 0
    let mut dones: Vec<usize> = Vec::new();
    let mut cz: usize = 0;
    while cz < column_count
        invariant
            cz <= column_count,
            dones@.len() == cz,
            forall|c: int| 0 <= c < cz ==> #[trigger] dones@[c] == 0,
        decreases column_count - cz,
    {
        dones.push(0);
        cz = cz + 1;
    }
    proof {
        assert(to_ints(dones@) =~= zeros(k));
        assert(dones_wf(s, zeros(k)));
    }

    let mut out: Vec<String> = Vec::new();
    let mut first_physical_line = true;
    loop
        invariant
            s == subcells.deep_view(),
            s == subcells_of(cdv, k),
            s.len() == k,
            k == column_count as int,
            wv == column_widths@,
            wv.len() == k,
            av == right_aligns@,
            av == aligns_of(cdv, k),
            cdv == cells.deep_view(),
            lnn == line_number as nat,
            lwi == linenum_width as int,
            dones@.len() == column_count,
            dones_wf(s, to_ints(dones@)),
            first_physical_line == (out@.len() == 0),
            render_passes(s, zeros(k), wv, av, lnn, lwi, true) == out@.map_values(
                |l: String| l@,
            ) + render_passes(s, to_ints(dones@), wv, av, lnn, lwi, first_physical_line),
        ensures
            render_passes(s, zeros(k), wv, av, lnn, lwi, true) == out@.map_values(
                |l: String| l@,
            ),
        decreases remaining(s, to_ints(dones@)),
    {
        let cont = any_unfinished_exec(&subcells, &dones);
        if !cont {
            proof {
                assert(render_passes(s, to_ints(dones@), wv, av, lnn, lwi, first_physical_line)
                    =~= Seq::<Seq<char>>::empty());
                assert(out@.map_values(|l: String| l@) + Seq::<Seq<char>>::empty()
                    =~= out@.map_values(|l: String| l@));
            }
            break;
        }
        let ghost di = to_ints(dones@);

        // where each column's pass ends, and the width it fills
        let mut todos: Vec<usize> = Vec::new();
        let mut ws: Vec<usize> = Vec::new();
        let mut ci: usize = 0;
        while ci < column_count
            invariant
                ci <= column_count,
                s == subcells.deep_view(),
                s.len() == k,
                k == column_count as int,
                wv == column_widths@,
                wv.len() == k,
                dones@.len() == column_count,
                di == to_ints(dones@),
                dones_wf(s, di),
                todos@.len() == ci,
                ws@.len() == ci,
                forall|c: int|
                    0 <= c < ci ==> {
                        &&& (#[trigger] todos@[c]) as int == wrap_end(s[c], di[c], wv[c] as int)
                        &&& dones@[c] <= todos@[c] <= s[c].len()
                        &&& ws@[c] as int == frag_width(s[c].subrange(di[c], todos@[c] as int))
                    },
            decreases column_count - ci,
        {
            let cslen = subcells[ci].len();
            let cwc = column_widths[ci];
            let done = dones[ci];
            proof {
                assert(s[ci as int] == subcells@[ci as int].deep_view());
                assert(di[ci as int] == dones@[ci as int] as int);
                assert(done <= cslen);
                assert(s[ci as int].subrange(done as int, done as int) =~= Seq::<Seq<
                    char,
                >>::empty());
            }
            let mut ii = done;
            let mut w: usize = 0;
            while ii < cslen
                invariant_except_break
                    done <= ii <= cslen,
                    cslen == s[ci as int].len(),
                    ci < column_count,
                    k == column_count as int,
                    s == subcells.deep_view(),
                    s.len() == k,
                    w as int == frag_width(s[ci as int].subrange(done as int, ii as int)),
                    wrap_end(s[ci as int], done as int, cwc as int) == wrap_ext(
                        s[ci as int],
                        ii as int,
                        w as int,
                        cwc as int,
                    ),
                ensures
                    done <= ii <= cslen,
                    cslen == s[ci as int].len(),
                    ii as int == wrap_end(s[ci as int], done as int, cwc as int),
                    w as int == frag_width(s[ci as int].subrange(done as int, ii as int)),
                decreases cslen - ii,
            {
                let ssl = display_width(subcells[ci][ii].as_str());
                proof {
                    assert(s[ci as int] == subcells@[ci as int].deep_view());
                    assert(s[ci as int][ii as int] == subcells@[ci as int]@[ii as int]@);
                }
                if w == 0 || (w <= cwc && ssl <= cwc - w) {
                    proof {
                        let col = s[ci as int];
                        assert(col.subrange(done as int, ii + 1).drop_last() =~= col.subrange(
                            done as int,
                            ii as int,
                        ));
                        assert(col.subrange(done as int, ii + 1).last() == col[ii as int]);
                    }
                    w = w + ssl;
                    ii = ii + 1;
                } else {
                    proof {
                        assert(wrap_ext(s[ci as int], ii as int, w as int, cwc as int)
                            == ii as int);
                    }
                    break;
                }
            }
            todos.push(ii);
            ws.push(w);
            ci = ci + 1;
        }
        let ghost ti = to_ints(todos@);
        proof {
            assert(ti =~= todos_of(s, di, wv));
        }

        // build the physical line: gutter, then each column's fragment
        let mut line = String::new();
        if linenum_width > 0 {
            line.append(text_color(line_number));
            if line_number != 0 && first_physical_line {
                let linenum_str = usize_to_string(line_number);
                let numlen = linenum_str.as_str().unicode_len();
                let padn: usize = if numlen < linenum_width {
                    linenum_width - numlen
                } else {
                    0
                };
                let pad = format_str_bar(" ", padn);
                line.append(pad.as_str());
                line.append(linenum_str.as_str());
                proof {
                    assert(spaces(lwi - dec_str_of(lnn as int).len()) =~= repeat_view(
                        " "@,
                        padn as int,
                    ));
                }
            } else {
                let pad = format_str_bar(" ", linenum_width);
                line.append(pad.as_str());
            }
            line.append(frame_color());
            line.append(vertical());
        }
        proof {
            assert(line@ =~= gutter_view(lnn, lwi, first_physical_line));
        }
        let ghost gprefix = line@;
        let mut ci: usize = 0;
        while ci < column_count
            invariant
                ci <= column_count,
                s == subcells.deep_view(),
                s.len() == k,
                k == column_count as int,
                wv == column_widths@,
                wv.len() == k,
                av == right_aligns@,
                av.len() == k,
                lnn == line_number as nat,
                dones@.len() == column_count,
                todos@.len() == column_count,
                ws@.len() == column_count,
                di == to_ints(dones@),
                ti == to_ints(todos@),
                forall|c: int|
                    0 <= c < column_count ==> {
                        &&& (#[trigger] todos@[c]) as int == wrap_end(s[c], di[c], wv[c] as int)
                        &&& dones@[c] <= todos@[c] <= s[c].len()
                        &&& ws@[c] as int == frag_width(s[c].subrange(di[c], todos@[c] as int))
                    },
                gprefix + cols_view(s, di, ti, wv, av, lnn, 0) =~= line@ + cols_view(
                    s,
                    di,
                    ti,
                    wv,
                    av,
                    lnn,
                    ci as int,
                ),
            decreases column_count - ci,
        {
            let ghost old_line = line@;
            line.append(text_color(line_number));
            let done = dones[ci];
            let todo = todos[ci];
            let w = ws[ci];
            let cwc = column_widths[ci];
            let padn: usize = if w < cwc {
                cwc - w
            } else {
                0
            };
            proof {
                assert(s[ci as int] == subcells@[ci as int].deep_view());
                assert(subcells@[ci as int]@.len() == s[ci as int].len());
            }
            if right_aligns[ci] {
                let pad = format_str_bar(" ", padn);
                line.append(pad.as_str());
                append_fragment(&mut line, &subcells[ci], done, todo);
            } else {
                append_fragment(&mut line, &subcells[ci], done, todo);
                let pad = format_str_bar(" ", padn);
                line.append(pad.as_str());
            }
            if ci + 1 < column_count {
                line.append(frame_color());
                line.append(vertical());
            }
            proof {
                let c = ci as int;
                let frag = s[c].subrange(di[c], ti[c]);
                assert(spaces(wv[c] as int - frag_width(frag)) =~= repeat_view(
                    " "@,
                    padn as int,
                ));
                assert(line@ =~= old_line + col_segment(s, di, ti, wv, av, lnn, c));
                assert(old_line + cols_view(s, di, ti, wv, av, lnn, c) =~= line@ + cols_view(
                    s,
                    di,
                    ti,
                    wv,
                    av,
                    lnn,
                    c + 1,
                ));
            }
            ci = ci + 1;
        }
        line.append(reset_color());
        proof {
            assert(cols_view(s, di, ti, wv, av, lnn, k) =~= Seq::<char>::empty());
            assert(gprefix + cols_view(s, di, ti, wv, av, lnn, 0) + Seq::<char>::empty()
                =~= gprefix + cols_view(s, di, ti, wv, av, lnn, 0));
            assert(line@ =~= line_view(s, di, ti, wv, av, lnn, lwi, first_physical_line));
        }

        let ghost old_out_views = out@.map_values(|l: String| l@);
        let ghost line_v = line@;
        out.push(line);
        proof {
            assert(any_unfinished(s, di));
            assert(render_passes(s, di, wv, av, lnn, lwi, first_physical_line) == seq![
                line_view(s, di, ti, wv, av, lnn, lwi, first_physical_line),
            ] + render_passes(s, ti, wv, av, lnn, lwi, false));
            assert(out@.map_values(|l: String| l@) =~= old_out_views.push(line_v));
            assert(old_out_views + (seq![line_v] + render_passes(s, ti, wv, av, lnn, lwi, false))
                =~= old_out_views.push(line_v) + render_passes(s, ti, wv, av, lnn, lwi, false));
            lemma_remaining_decreases(s, di, wv);
            assert(dones_wf(s, ti));
        }
        dones = todos;
        first_physical_line = false;
    }
    proof {
        assert(out@.map_values(|l: String| l@) == print_line_view(lnn, cdv, wv, lwi));
    }
    out
}

/// Law: rendering is deterministic — two renders of the same row, widths
/// and gutter produce identical output.
pub proof fn lemma_print_line_deterministic(
    ln: nat,
    cells: Seq<Seq<char>>,
    widths: Seq<usize>,
    lw: int,
    r1: Seq<Seq<char>>,
    r2: Seq<Seq<char>>,
)
    requires
        r1 == print_line_view(ln, cells, widths, lw),
        r2 == print_line_view(ln, cells, widths, lw),
    ensures
        r1 == r2,
{
}

} // verus!
