use vstd::prelude::*;
use vstd::relations::{sorted_by, total_ordering};
use vstd::seq_lib::lemma_sorted_unique;
use crate::constants::FRAME_CHAR_WIDTH;
use crate::constants::MAX_UNFOLDED_COLUMN_WIDTH;
use crate::unicode::str_width;
use crate::unicode::str_width_of;

verus! {

broadcast use vstd::seq_lib::group_to_multiset_ensures;

/// Per-column summary of the sampled display widths: minimum, median, maximum.
#[derive(Copy, Clone, Debug)]
pub struct MinMedMax(pub usize, pub usize, pub usize);

/// The ordering by which a column's sampled widths are sorted.
pub open spec fn width_leq() -> spec_fn(usize, usize) -> bool {
    |a: usize, b: usize| a <= b
}

pub proof fn lemma_width_leq_total()
    ensures
        total_ordering(width_leq()),
{
    let leq = width_leq();
    assert forall|x: usize| #[trigger] leq(x, x) by {}
    assert(vstd::relations::reflexive(leq));
    assert(vstd::relations::antisymmetric(leq));
    assert(vstd::relations::transitive(leq));
    assert(vstd::relations::strongly_connected(leq));
}

/// The number of columns of a sample: the longest row's cell count.
pub open spec fn column_count_of(rows: Seq<Seq<Seq<char>>>) -> int
    decreases rows.len(),
{
    if rows.len() == 0 {
        0
    } else {
        let rest = column_count_of(rows.drop_last());
        if rows.last().len() > rest {
            rows.last().len() as int
        } else {
            rest
        }
    }
}

pub proof fn lemma_column_count_bounds(rows: Seq<Seq<Seq<char>>>)
    ensures
        0 <= column_count_of(rows),
        forall|ri: int|
            0 <= ri < rows.len() ==> (#[trigger] rows[ri]).len() <= column_count_of(rows),
    decreases rows.len(),
{
    if rows.len() > 0 {
        lemma_column_count_bounds(rows.drop_last());
        assert forall|ri: int|
            0 <= ri < rows.len() implies (#[trigger] rows[ri]).len() <= column_count_of(
            rows,
        ) by {
            if ri < rows.len() - 1 {
                assert(rows.drop_last()[ri] == rows[ri]);
            } else {
                assert(rows[ri] == rows.last());
            }
        }
    }
}

/// The display width of row `ri`'s cell in column `ci`; a row that lacks the
/// column counts as width 0.
pub open spec fn column_widths_of(rows: Seq<Seq<Seq<char>>>, ci: int) -> Seq<usize> {
    rows.map_values(
        |row: Seq<Seq<char>>|
            if 0 <= ci < row.len() {
                str_width_of(row[ci]) as usize
            } else {
                0usize
            },
    )
}

/// A column's sampled widths in ascending order.
pub open spec fn sorted_widths_of(rows: Seq<Seq<Seq<char>>>, ci: int) -> Seq<usize> {
    column_widths_of(rows, ci).sort_by(width_leq())
}

/// Index of the median in a sorted sample of size `n`: the single element for
/// `n == 1`, else the element at `(n + 1) / 2`.
pub open spec fn median_index_of(n: int) -> int {
    if n == 1 {
        0
    } else {
        (n + 1) / 2
    }
}

pub proof fn lemma_sorted_widths_len(rows: Seq<Seq<Seq<char>>>, ci: int)
    ensures
        sorted_widths_of(rows, ci).len() == rows.len(),
{
    let cw = column_widths_of(rows, ci);
    let s = sorted_widths_of(rows, ci);
    lemma_width_leq_total();
    cw.lemma_sort_by_ensures(width_leq());
    assert(s.to_multiset().len() == cw.to_multiset().len());
}

/// Sorts a vector of widths ascending by repeated insertion.
fn sort_widths(v: Vec<usize>) -> (r: Vec<usize>)
    ensures
        sorted_by(r@, width_leq()),
        r@.to_multiset() == v@.to_multiset(),
        r@.len() == v@.len(),
{
    let mut out: Vec<usize> = Vec::new();
    let mut i: usize = 0;
    proof {
        assert(v@.take(0) =~= Seq::<usize>::empty());
    }
    while i < v.len()
        invariant
            i <= v@.len(),
            sorted_by(out@, width_leq()),
            out@.to_multiset() == v@.take(i as int).to_multiset(),
            out@.len() == i,
        decreases v@.len() - i,
    {
        let x = v[i];
        let mut j: usize = 0;
        while j < out.len() && out[j] <= x
            invariant
                j <= out@.len(),
                forall|k: int| 0 <= k < j ==> #[trigger] out@[k] <= x,
            decreases out@.len() - j,
        {
            j = j + 1;
        }
        let ghost old_out = out@;
        proof {
            if j < out@.len() {
                assert(!(out@[j as int] <= x));
            }
        }
        out.insert(j, x);
        proof {
            let leq = width_leq();
            assert(out@ == old_out.subrange(0, j as int).push(x) + old_out.subrange(
                j as int,
                old_out.len() as int,
            ));
            assert(forall|k: int| 0 <= k < j ==> out@[k] == old_out[k]);
            assert(out@[j as int] == x);
            assert(forall|k: int| j < k < out@.len() ==> out@[k] == old_out[k - 1]);
            assert forall|a: int, b: int|
                0 <= a < b < out@.len() implies #[trigger] leq(out@[a], out@[b]) by {
                if a < j && b < j {
                    assert(leq(old_out[a], old_out[b]));
                } else if a < j && b == j {
                    assert(old_out[a] <= x);
                } else if a < j && b > j {
                    assert(leq(old_out[a], old_out[b - 1]));
                } else if a == j && b > j {
                    assert(!(old_out[j as int] <= x));
                    if j < b - 1 {
                        assert(leq(old_out[j as int], old_out[b - 1]));
                    }
                } else {
                    assert(a > j && b > j);
                    assert(leq(old_out[a - 1], old_out[b - 1]));
                }
            }
            assert(v@.take(i + 1).drop_last() =~= v@.take(i as int));
            assert(v@.take(i + 1) =~= v@.take(i as int).push(v@[i as int]));
            vstd::seq_lib::to_multiset_insert(old_out, j as int, x);
            assert(out@.to_multiset() == v@.take(i + 1).to_multiset());
        }
        i = i + 1;
    }
    proof {
        assert(v@.take(v@.len() as int) =~= v@);
    }
    out
}

/// Consumes a non-empty sample of rows (each already split into cells) and
/// yields one `MinMedMax` display-width triple per column that appears in any
/// sampled row; ragged rows count as width 0 in the columns they lack.
pub fn get_raw_column_widths(line_cells: &Vec<Vec<String>>) -> (r: Vec<MinMedMax>)
    requires
        line_cells@.len() >= 1,
    ensures
        ({
            let rows = line_cells.deep_view();
            let n = rows.len() as int;
            &&& r@.len() == column_count_of(rows)
            &&& forall|ci: int|
                0 <= ci < r@.len() ==> {
                    let s = sorted_widths_of(rows, ci);
                    &&& (#[trigger] r@[ci]).0 == s[0]
                    &&& r@[ci].1 == s[median_index_of(n)]
                    &&& r@[ci].2 == s[n - 1]
                }
            &&& forall|ci: int|
                0 <= ci < r@.len() ==> (#[trigger] r@[ci]).0 <= r@[ci].1 && r@[ci].1 <= r@[ci].2
            &&& n == 1 ==> forall|ci: int|
                0 <= ci < r@.len() ==> (#[trigger] r@[ci]).0 == r@[ci].1 && r@[ci].1 == r@[ci].2
            &&& r@ == triples_of(rows)
        }),
{
    let ghost rows = line_cells.deep_view();
    let line_count = line_cells.len();
    proof {
        assert(rows.len() == line_cells@.len()) by {
            assert(rows =~= line_cells@.map_values(
                |row: Vec<String>| row.deep_view(),
            ));
        }
        lemma_column_count_bounds(rows);
    }

    let mut column_count: usize = 0;
    let mut ri: usize = 0;
    while ri < line_count
        invariant
            ri <= line_count,
            line_count == line_cells@.len(),
            rows == line_cells.deep_view(),
            rows.len() == line_count,
            column_count == column_count_of(rows.take(ri as int)),
        decreases line_count - ri,
    {
        proof {
            assert(rows.take(ri + 1).drop_last() =~= rows.take(ri as int));
            assert(rows.take(ri + 1).last() == rows[ri as int]);
            assert(rows[ri as int].len() == line_cells@[ri as int]@.len()) by {
                assert(rows =~= line_cells@.map_values(
                    |row: Vec<String>| row.deep_view(),
                ));
                assert(rows[ri as int] =~= line_cells@[ri as int]@.map_values(
                    |c: String| c@,
                ));
            }
        }
        if line_cells[ri].len() > column_count {
            column_count = line_cells[ri].len();
        }
        ri = ri + 1;
    }
    proof {
        assert(rows.take(line_count as int) =~= rows);
    }

    let median_index: usize = if line_count == 1 {
        0
    } else {
        (line_count - 1) / 2 + 1
    };
    proof {
        assert(median_index == median_index_of(line_count as int));
        assert(line_count >= 2 ==> median_index < line_count) by {
            if line_count >= 2 {
                assert((line_count + 1) / 2 < line_count);
            }
        }
    }

    let mut result: Vec<MinMedMax> = Vec::new();
    let mut ci: usize = 0;
    while ci < column_count
        invariant
            ci <= column_count,
            line_count == line_cells@.len(),
            line_count >= 1,
            rows == line_cells.deep_view(),
            rows.len() == line_count,
            column_count == column_count_of(rows),
            median_index == median_index_of(line_count as int),
            median_index < line_count,
            result@.len() == ci,
            forall|c: int|
                0 <= c < ci ==> {
                    let s = sorted_widths_of(rows, c);
                    &&& (#[trigger] result@[c]).0 == s[0]
                    &&& result@[c].1 == s[median_index as int]
                    &&& result@[c].2 == s[line_count - 1]
                },
        decreases column_count - ci,
    {
        let mut cwl: Vec<usize> = Vec::new();
        let mut ri: usize = 0;
        proof {
            assert(column_widths_of(rows, ci as int).take(0) =~= Seq::<usize>::empty());
        }
        while ri < line_count
            invariant
                ri <= line_count,
                line_count == line_cells@.len(),
                rows == line_cells.deep_view(),
                rows.len() == line_count,
                cwl@ == column_widths_of(rows, ci as int).take(ri as int),
            decreases line_count - ri,
        {
            proof {
                assert(rows[ri as int] =~= line_cells@[ri as int]@.map_values(
                    |c: String| c@,
                )) by {
                    assert(rows =~= line_cells@.map_values(
                        |row: Vec<String>| row.deep_view(),
                    ));
                }
            }
            let w: usize = if ci < line_cells[ri].len() {
                str_width(line_cells[ri][ci].as_str())
            } else {
                0
            };
            proof {
                let cw = column_widths_of(rows, ci as int);
                assert(cw[ri as int] == w);
                assert(cw.take(ri + 1) =~= cw.take(ri as int).push(cw[ri as int]));
            }
            cwl.push(w);
            ri = ri + 1;
        }
        proof {
            assert(column_widths_of(rows, ci as int).take(line_count as int)
                =~= column_widths_of(rows, ci as int));
        }
        let sorted = sort_widths(cwl);
        proof {
            let cw = column_widths_of(rows, ci as int);
            lemma_width_leq_total();
            cw.lemma_sort_by_ensures(width_leq());
            lemma_sorted_unique(sorted@, cw.sort_by(width_leq()), width_leq());
            assert(sorted@ == sorted_widths_of(rows, ci as int));
        }
        let mmm = MinMedMax(sorted[0], sorted[median_index], sorted[sorted.len() - 1]);
        result.push(mmm);
        ci = ci + 1;
    }
    proof {
        let n = rows.len() as int;
        assert forall|c: int|
            0 <= c < result@.len() implies (#[trigger] result@[c]).0 <= result@[c].1
            && result@[c].1 <= result@[c].2 by {
            let s = sorted_widths_of(rows, c);
            let cw = column_widths_of(rows, c);
            lemma_width_leq_total();
            cw.lemma_sort_by_ensures(width_leq());
            lemma_sorted_widths_len(rows, c);
            assert(s.len() == n);
            assert(width_leq()(s[0], s[median_index_of(n)]) || 0 == median_index_of(n));
            assert(width_leq()(s[median_index_of(n)], s[n - 1]) || median_index_of(n) == n - 1);
        }
        assert(result@ =~= triples_of(rows));
    }
    result
}

/// One column's `MinMedMax`, read off the sorted widths.
pub open spec fn triple_of(rows: Seq<Seq<Seq<char>>>, ci: int) -> MinMedMax {
    let s = sorted_widths_of(rows, ci);
    let n = rows.len() as int;
    MinMedMax(s[0], s[median_index_of(n)], s[n - 1])
}

/// The whole summary the aggregator produces for a sample.
pub open spec fn triples_of(rows: Seq<Seq<Seq<char>>>) -> Seq<MinMedMax> {
    Seq::new(column_count_of(rows) as nat, |ci: int| triple_of(rows, ci))
}

/// Failure of the width allocator: the terminal is too narrow for the
/// column count at any bias weight.
#[derive(Debug, PartialEq, Eq, Structural)]
pub enum DetColumnWidthError {
    TooManyColumns { columns: usize },
}

/// A triple is well formed when min <= median <= max.
pub open spec fn triple_wf(mmm: MinMedMax) -> bool {
    mmm.0 <= mmm.1 && mmm.1 <= mmm.2
}

pub open spec fn triples_wf(ts: Seq<MinMedMax>) -> bool {
    forall|i: int| 0 <= i < ts.len() ==> triple_wf(#[trigger] ts[i])
}

/// The comfort width: no column is explicitly shrunk below it.
pub open spec fn comfort() -> int {
    MAX_UNFOLDED_COLUMN_WIDTH as int
}

/// Display width of one column separator.
pub open spec fn sep_of() -> int {
    FRAME_CHAR_WIDTH as int
}

/// The blended ideal width of a column at bias weight `p` percent:
/// `median * (1 - w) + max * w` at `w = p / 100`, computed exactly in
/// integers; at `p == 100` it is the maximum itself, with no rounding.
pub open spec fn target_of(mmm: MinMedMax, p: int) -> int {
    if p == 100 {
        mmm.2 as int
    } else {
        ((mmm.1 as int) * (100 - p) + (mmm.2 as int) * p) / 100
    }
}

/// Width a column asks for beyond the comfort width at bias `p`.
pub open spec fn need_term(mmm: MinMedMax, p: int) -> int {
    if target_of(mmm, p) > comfort() {
        target_of(mmm, p) - comfort()
    } else {
        0
    }
}

pub open spec fn need_sum(ts: Seq<MinMedMax>, p: int) -> int
    decreases ts.len(),
{
    if ts.len() == 0 {
        0
    } else {
        need_sum(ts.drop_last(), p) + need_term(ts.last(), p)
    }
}

/// The divisor of the proportional distribution; forced to 1 when no column
/// asks for anything.
pub open spec fn need_of(ts: Seq<MinMedMax>, p: int) -> int {
    if need_sum(ts, p) == 0 {
        1
    } else {
        need_sum(ts, p)
    }
}

/// Space reclaimable from a column whose true maximum stays below comfort.
pub open spec fn slack_term(mmm: MinMedMax) -> int {
    if (mmm.2 as int) < comfort() {
        comfort() - mmm.2
    } else {
        0
    }
}

pub open spec fn slack_sum(ts: Seq<MinMedMax>) -> int
    decreases ts.len(),
{
    if ts.len() == 0 {
        0
    } else {
        slack_sum(ts.drop_last()) + slack_term(ts.last())
    }
}

/// Whether the terminal, with slack reclaimed, accommodates comfort width
/// for every column plus the separators between columns.
pub open spec fn fits(ts: Seq<MinMedMax>, tw: int) -> bool {
    let k = ts.len() as int;
    k * comfort() + (k - 1) * sep_of() <= tw + slack_sum(ts)
}

/// What is left to distribute beyond comfort widths once the frame is paid for.
pub open spec fn avail_of(ts: Seq<MinMedMax>, tw: int) -> int {
    let k = ts.len() as int;
    tw + slack_sum(ts) - (k * comfort() + (k - 1) * sep_of())
}

/// The width finally allocated to one column, given the available pool `a`
/// and the divisor `nd`: comfort plus a proportional grant capped at the
/// column's true maximum, or the maximum itself when it is below comfort.
pub open spec fn alloc_term(mmm: MinMedMax, p: int, a: int, nd: int) -> int {
    let t = target_of(mmm, p);
    if t > comfort() {
        comfort() + vstd::math::min((mmm.2 as int) - comfort(), (t - comfort()) * a / nd)
    } else if (mmm.2 as int) < comfort() {
        mmm.2 as int
    } else {
        comfort()
    }
}

pub open spec fn alloc_sum(s: Seq<usize>) -> int
    decreases s.len(),
{
    if s.len() == 0 {
        0
    } else {
        alloc_sum(s.drop_last()) + s.last()
    }
}

proof fn lemma_target_bounds(mmm: MinMedMax, p: int)
    requires
        triple_wf(mmm),
        50 <= p <= 100,
    ensures
        0 <= target_of(mmm, p) <= mmm.2 as int,
{
    if p != 100 {
        let med = mmm.1 as int;
        let mx = mmm.2 as int;
        let num = med * (100 - p) + mx * p;
        assert(med * (100 - p) + mx * p >= 0 && med * (100 - p) + mx * p <= mx * 100)
            by (nonlinear_arith)
            requires
                0 <= med,
                med <= mx,
                50 <= p <= 100,
        ;
        vstd::arithmetic::div_mod::lemma_div_pos_is_pos(num, 100);
        vstd::arithmetic::div_mod::lemma_div_is_ordered(num, mx * 100, 100);
        assert((100 * mx) / 100 == mx) by {
            vstd::arithmetic::div_mod::lemma_div_multiples_vanish(mx, 100);
        }
        assert(mx * 100 == 100 * mx);
    }
}

proof fn lemma_drop_last_wf(ts: Seq<MinMedMax>)
    requires
        triples_wf(ts),
        ts.len() > 0,
    ensures
        triples_wf(ts.drop_last()),
{
    assert forall|i: int| 0 <= i < ts.drop_last().len() implies triple_wf(
        #[trigger] ts.drop_last()[i],
    ) by {
        assert(ts.drop_last()[i] == ts[i]);
    }
}

proof fn lemma_sums_bounds(ts: Seq<MinMedMax>, p: int)
    requires
        triples_wf(ts),
        50 <= p <= 100,
    ensures
        0 <= need_sum(ts, p),
        need_sum(ts, p) <= ts.len() * (usize::MAX as int),
        0 <= slack_sum(ts),
        slack_sum(ts) <= ts.len() * comfort(),
    decreases ts.len(),
{
    if ts.len() > 0 {
        lemma_drop_last_wf(ts);
        lemma_sums_bounds(ts.drop_last(), p);
        assert(triple_wf(ts.last()));
        lemma_target_bounds(ts.last(), p);
        assert(need_term(ts.last(), p) <= usize::MAX as int);
        assert((ts.len() - 1) * (usize::MAX as int) + (usize::MAX as int) == ts.len() * (
        usize::MAX as int)) by (nonlinear_arith);
        assert((ts.len() - 1) * comfort() + comfort() == ts.len() * comfort())
            by (nonlinear_arith);
    }
}

proof fn lemma_need_sum_prefix(ts: Seq<MinMedMax>, p: int, j: int)
    requires
        triples_wf(ts),
        50 <= p <= 100,
        0 <= j <= ts.len(),
    ensures
        0 <= need_sum(ts.take(j), p) <= need_sum(ts, p),
    decreases ts.len() - j,
{
    assert(triples_wf(ts.take(j))) by {
        assert forall|i: int| 0 <= i < j implies triple_wf(#[trigger] ts.take(j)[i]) by {
            assert(ts.take(j)[i] == ts[i]);
        }
    }
    lemma_sums_bounds(ts.take(j), p);
    if j < ts.len() {
        lemma_need_sum_prefix(ts, p, j + 1);
        assert(ts.take(j + 1).drop_last() =~= ts.take(j));
        assert(ts.take(j + 1).last() == ts[j]);
        assert(triple_wf(ts[j]));
        lemma_target_bounds(ts[j], p);
        assert(need_term(ts[j], p) >= 0);
    } else {
        assert(ts.take(j) =~= ts);
    }
}

proof fn lemma_div_superadd(x: int, y: int, d: int)
    requires
        0 <= x,
        0 <= y,
        1 <= d,
    ensures
        x / d + y / d <= (x + y) / d,
{
    vstd::arithmetic::div_mod::lemma_fundamental_div_mod(x, d);
    vstd::arithmetic::div_mod::lemma_fundamental_div_mod(y, d);
    vstd::arithmetic::div_mod::lemma_fundamental_div_mod(x + y, d);
    vstd::arithmetic::div_mod::lemma_mod_division_less_than_divisor(x, d);
    vstd::arithmetic::div_mod::lemma_mod_division_less_than_divisor(y, d);
    vstd::arithmetic::div_mod::lemma_mod_division_less_than_divisor(x + y, d);
    assert(x / d + y / d <= (x + y) / d) by (nonlinear_arith)
        requires
            x == d * (x / d) + (x % d),
            y == d * (y / d) + (y % d),
            x + y == d * ((x + y) / d) + ((x + y) % d),
            0 <= x % d < d,
            0 <= y % d < d,
            0 <= (x + y) % d < d,
            1 <= d,
    ;
}

/// The blended target width, computed exactly in wide integers.
fn target_width(mmm: &MinMedMax, p: usize) -> (t: u128)
    requires
        triple_wf(*mmm),
        50 <= p <= 100,
    ensures
        t as int == target_of(*mmm, p as int),
        t as int <= mmm.2 as int,
{
    let med = mmm.1 as u128;
    let mx = mmm.2 as u128;
    if p == 100 {
        mx
    } else {
        let wm: u128 = 100 - p as u128;
        let wp: u128 = p as u128;
        proof {
            assert(med * wm <= med * 100 && mx * wp <= mx * 100) by (nonlinear_arith)
                requires
                    0 <= wm <= 100,
                    0 <= wp <= 100,
                    0 <= med,
                    0 <= mx,
            ;
            lemma_target_bounds(*mmm, p as int);
        }
        (med * wm + mx * wp) / 100
    }
}

/// Consumes the per-column triples (each ordered `min <= median <= max`, as
/// the aggregator yields them) and the usable terminal width, and decides a
/// definitive display width for every column, or fails with
/// `TooManyColumns` exactly when even comfort widths cannot fit.
///
/// The successful allocation always satisfies
/// `sum + (columns - 1) * separator <= terminal_width`.
pub fn det_print_column_widths(
    column_width_minmedmaxs: &Vec<MinMedMax>,
    terminal_width: usize,
) -> (r: Result<Vec<usize>, DetColumnWidthError>)
    requires
        triples_wf(column_width_minmedmaxs@),
    ensures
        ({
            let ts = column_width_minmedmaxs@;
            let tw = terminal_width as int;
            let k = ts.len() as int;
            &&& (r is Ok <==> fits(ts, tw))
            &&& (r is Err ==> r->Err_0 == (DetColumnWidthError::TooManyColumns {
                columns: ts.len() as usize,
            }))
            &&& (r matches Ok(v) ==> v@.len() == k)
            &&& (r matches Ok(v) ==> forall|i: int|
                0 <= i < k ==> (#[trigger] v@[i]) as int == alloc_term(
                    ts[i],
                    100,
                    avail_of(ts, tw),
                    need_of(ts, 100),
                ))
            &&& (r matches Ok(v) ==> alloc_sum(v@) + (k - 1) * sep_of() <= tw)
        }),
{
    let ghost ts = column_width_minmedmaxs@;
    let ghost tw = terminal_width as int;
    let column_count = column_width_minmedmaxs.len();
    if column_count == 0 {
        proof {
            let k = ts.len() as int;
            assert(comfort() == 7 && sep_of() == 1);
            assert(k == 0);
            assert(k * comfort() == 0 && (k - 1) * sep_of() == -1) by (nonlinear_arith)
                requires
                    k == 0,
                    comfort() == 7,
                    sep_of() == 1,
            ;
            assert(fits(ts, tw));
            assert(alloc_sum(Seq::<usize>::empty()) == 0);
        }
        return Ok(Vec::new());
    }

    // Phase 1: bias search, from trusting the maximum down to an even blend.
    let mut found: bool = false;
    let mut need: u128 = 1;
    let mut allocable: u128 = 0;
    let mut p: usize = 100;
    loop
        invariant_except_break
            50 <= p <= 100,
            p % 5 == 0,
            !found,
            p < 100 ==> !fits(ts, tw),
            column_count == ts.len(),
            column_count >= 1,
            ts == column_width_minmedmaxs@,
            triples_wf(ts),
            tw == terminal_width as int,
        ensures
            found ==> fits(ts, tw) && need as int == need_of(ts, 100) && allocable as int
                == avail_of(ts, tw),
            !found ==> !fits(ts, tw),
            column_count == ts.len(),
            ts == column_width_minmedmaxs@,
            triples_wf(ts),
            tw == terminal_width as int,
            column_count >= 1,
        decreases p,
    {
        let mut need_acc: u128 = 0;
        let mut slack_acc: u128 = 0;
        let mut ci: usize = 0;
        while ci < column_count
            invariant
                ci <= column_count,
                column_count == ts.len(),
                ts == column_width_minmedmaxs@,
                triples_wf(ts),
                50 <= p <= 100,
                need_acc as int == need_sum(ts.take(ci as int), p as int),
                slack_acc as int == slack_sum(ts.take(ci as int)),
                need_acc as int <= (ci as int) * (usize::MAX as int),
                slack_acc as int <= (ci as int) * comfort(),
            decreases column_count - ci,
        {
            let mmm = column_width_minmedmaxs[ci];
            let mx = mmm.2 as u128;
            let t = target_width(&mmm, p);
            proof {
                assert(ts.take(ci + 1).drop_last() =~= ts.take(ci as int));
                assert(ts.take(ci + 1).last() == ts[ci as int]);
                lemma_target_bounds(ts[ci as int], p as int);
                assert(need_acc as int + (usize::MAX as int) <= ((ci as int) + 1) * (
                usize::MAX as int)) by (nonlinear_arith)
                    requires
                        need_acc as int <= (ci as int) * (usize::MAX as int),
                        0 <= ci as int,
                ;
                assert(slack_acc as int + comfort() <= ((ci as int) + 1) * comfort())
                    by (nonlinear_arith)
                    requires
                        slack_acc as int <= (ci as int) * comfort(),
                        0 <= ci as int,
                ;
                assert(((ci as int) + 1) * (usize::MAX as int) <= (usize::MAX as int) * (
                usize::MAX as int)) by (nonlinear_arith)
                    requires
                        0 <= ci as int,
                        (ci as int) + 1 <= usize::MAX as int,
                ;
                assert((usize::MAX as int) * (usize::MAX as int) < u128::MAX as int)
                    by (nonlinear_arith)
                    requires
                        usize::MAX as int <= 0xffff_ffff_ffff_ffffu64 as int,
                ;
                assert(((ci as int) + 1) * comfort() <= (usize::MAX as int) * 7)
                    by (nonlinear_arith)
                    requires
                        0 <= ci as int,
                        (ci as int) + 1 <= usize::MAX as int,
                ;
            }
            if t > 7 {
                need_acc = need_acc + (t - 7);
            } else if mx < 7 {
                slack_acc = slack_acc + (7 - mx);
            }
            ci = ci + 1;
        }
        proof {
            assert(ts.take(column_count as int) =~= ts);
            lemma_sums_bounds(ts, p as int);
        }
        if need_acc == 0 {
            need_acc = 1;
        }
        proof {
            let k = ts.len() as int;
            assert(comfort() == 7);
            assert(sep_of() == 1);
            assert(k * 7 + (k - 1) * 1 <= (u64::MAX as int) * 8) by (nonlinear_arith)
                requires
                    1 <= k <= u64::MAX as int,
            ;
        }
        let lhs: u128 = (column_count as u128) * 7 + (column_count as u128 - 1) * 1;
        let have: u128 = terminal_width as u128 + slack_acc;
        proof {
            let k = ts.len() as int;
            assert(lhs as int == k * comfort() + (k - 1) * sep_of());
            assert(have as int == tw + slack_sum(ts));
        }
        if have >= lhs {
            found = true;
            need = need_acc;
            allocable = have - lhs;
            proof {
                assert(fits(ts, tw));
                assert(p == 100);
                assert(need_sum(ts, 100) == 0 ==> need as int == 1);
            }
            break;
        }
        proof {
            assert(!fits(ts, tw));
        }
        if p == 50 {
            break;
        }
        p = p - 5;
    }
    if !found {
        return Err(DetColumnWidthError::TooManyColumns { columns: column_count });
    }

    // Phase 2: proportional distribution of the available extra width.
    let a = allocable;
    let nd = need;
    let ghost ga = a as int;
    let ghost gnd = nd as int;
    proof {
        lemma_sums_bounds(ts, 100);
        assert(ga <= tw) by {
            assert(slack_sum(ts) <= ts.len() * comfort());
            assert(ts.len() * comfort() <= ts.len() * comfort() + (ts.len() - 1) * sep_of());
        }
        assert(need_sum(ts, 100) <= gnd);
    }
    let mut column_allocations: Vec<usize> = Vec::new();
    let mut ci: usize = 0;
    while ci < column_count
        invariant
            ci <= column_count,
            column_count == ts.len(),
            ts == column_width_minmedmaxs@,
            triples_wf(ts),
            tw == terminal_width as int,
            gnd >= 1,
            0 <= ga <= tw,
            nd as int == gnd,
            a as int == ga,
            gnd == need_of(ts, 100),
            need_sum(ts, 100) <= gnd,
            column_allocations@.len() == ci,
            forall|c: int|
                0 <= c < ci ==> (#[trigger] column_allocations@[c]) as int == alloc_term(
                    ts[c],
                    100,
                    ga,
                    gnd,
                ),
            alloc_sum(column_allocations@) <= comfort() * (ci as int) + (need_sum(
                ts.take(ci as int),
                100,
            ) * ga) / gnd - slack_sum(ts.take(ci as int)),
            0 <= need_sum(ts.take(ci as int), 100) <= need_sum(ts, 100),
        decreases column_count - ci,
    {
        let mmm = column_width_minmedmaxs[ci];
        let mx = mmm.2 as u128;
        let t = target_width(&mmm, 100);
        let ghost c = ci as int;
        proof {
            assert(ts.take(c + 1).drop_last() =~= ts.take(c));
            assert(ts.take(c + 1).last() == ts[c]);
            lemma_target_bounds(ts[c], 100);
            lemma_need_sum_prefix(ts, 100, c + 1);
            assert(triples_wf(ts.take(c + 1))) by {
                assert forall|i: int| 0 <= i < c + 1 implies triple_wf(
                    #[trigger] ts.take(c + 1)[i],
                ) by {
                    assert(ts.take(c + 1)[i] == ts[i]);
                }
            }
            lemma_sums_bounds(ts.take(c + 1), 100);
        }
        let alloc_c: u128 = if t > 7 {
            let d = t - 7;
            proof {
                assert(d * a <= (usize::MAX as int) * (usize::MAX as int)) by (nonlinear_arith)
                    requires
                        0 <= d as int <= usize::MAX as int,
                        0 <= a as int <= usize::MAX as int,
                ;
                assert((usize::MAX as int) * (usize::MAX as int) < u128::MAX as int)
                    by (nonlinear_arith)
                    requires
                        usize::MAX as int <= 0xffff_ffff_ffff_ffffu64 as int,
                ;
            }
            let g = d * a / nd;
            let grant = if mx - 7 < g {
                mx - 7
            } else {
                g
            };
            7 + grant
        } else if mx < 7 {
            mx
        } else {
            7
        };
        proof {
            assert(alloc_c as int == alloc_term(ts[c], 100, ga, gnd));
            assert(alloc_c as int <= usize::MAX as int);
        }
        let ghost old_allocs = column_allocations@;
        column_allocations.push(alloc_c as usize);
        proof {
            assert(column_allocations@.drop_last() =~= old_allocs);
            assert(column_allocations@.last() == alloc_c as usize);
            let ns = need_sum(ts.take(c), 100);
            let dterm = need_term(ts[c], 100);
            assert(need_sum(ts.take(c + 1), 100) == ns + dterm);
            assert(slack_sum(ts.take(c + 1)) == slack_sum(ts.take(c)) + slack_term(ts[c]));
            assert(0 <= ns) by {
                assert(triples_wf(ts.take(c))) by {
                    assert forall|i: int| 0 <= i < c implies triple_wf(
                        #[trigger] ts.take(c)[i],
                    ) by {
                        assert(ts.take(c)[i] == ts[i]);
                    }
                }
                lemma_sums_bounds(ts.take(c), 100);
            }
            assert(0 <= dterm);
            assert(0 <= ns * ga && 0 <= dterm * ga) by (nonlinear_arith)
                requires
                    0 <= ns,
                    0 <= dterm,
                    0 <= ga,
            ;
            lemma_div_superadd(ns * ga, dterm * ga, gnd);
            assert((ns + dterm) * ga == ns * ga + dterm * ga) by (nonlinear_arith);
            assert(alloc_c as int <= comfort() + (dterm * ga) / gnd - slack_term(ts[c])) by {
                if target_of(ts[c], 100) > comfort() {
                    assert(slack_term(ts[c]) == 0);
                    assert(alloc_c as int <= comfort() + (dterm * ga) / gnd);
                } else if (ts[c].2 as int) < comfort() {
                    assert(dterm == 0);
                    assert((0 * ga) / gnd == 0) by (nonlinear_arith)
                        requires
                            gnd >= 1,
                    ;
                } else {
                    assert(dterm == 0);
                    assert(slack_term(ts[c]) == 0);
                    assert((0 * ga) / gnd == 0) by (nonlinear_arith)
                        requires
                            gnd >= 1,
                    ;
                }
            }
            assert(comfort() * ((ci as int) + 1) == comfort() * (ci as int) + comfort())
                by (nonlinear_arith);
        }
        ci = ci + 1;
    }
    proof {
        assert(ts.take(column_count as int) =~= ts);
        let k = ts.len() as int;
        let ns = need_sum(ts, 100);
        assert((ns * ga) / gnd <= ga) by {
            if ns == 0 {
                assert((0 * ga) / gnd == 0) by (nonlinear_arith)
                    requires
                        gnd >= 1,
                ;
            } else {
                assert(gnd == ns);
                assert((gnd * ga) / gnd == ga) by {
                    vstd::arithmetic::div_mod::lemma_div_multiples_vanish(ga, gnd);
                }
            }
        }
        assert(comfort() * k == k * comfort()) by (nonlinear_arith);
        assert(alloc_sum(column_allocations@) + (k - 1) * sep_of() <= tw);
    }
    Ok(column_allocations)
}

/// Aggregates the sample, reduces the terminal width by the line-number
/// gutter and its separator when a gutter is drawn, and allocates.
pub fn determine_column_widths(
    line_cells: &Vec<Vec<String>>,
    linenum_width: usize,
    terminal_width: usize,
) -> (r: Result<Vec<usize>, DetColumnWidthError>)
    requires
        line_cells@.len() >= 1,
        linenum_width > 0 ==> terminal_width >= linenum_width + FRAME_CHAR_WIDTH,
    ensures
        ({
            let rows = line_cells.deep_view();
            let ts = triples_of(rows);
            let usable: int = if linenum_width > 0 {
                terminal_width - linenum_width - FRAME_CHAR_WIDTH
            } else {
                terminal_width as int
            };
            &&& (r is Ok <==> fits(ts, usable))
            &&& (r is Err ==> r->Err_0 == (DetColumnWidthError::TooManyColumns {
                columns: ts.len() as usize,
            }))
            &&& (r matches Ok(v) ==> v@.len() == ts.len())
            &&& (r matches Ok(v) ==> forall|i: int|
                0 <= i < v@.len() ==> (#[trigger] v@[i]) as int == alloc_term(
                    ts[i],
                    100,
                    avail_of(ts, usable),
                    need_of(ts, 100),
                ))
            &&& (r matches Ok(v) ==> alloc_sum(v@) + (ts.len() as int - 1) * sep_of() <= usable)
        }),
{
    let column_width_minmedmaxs = get_raw_column_widths(line_cells);
    proof {
        assert(triples_wf(column_width_minmedmaxs@));
    }
    if linenum_width > 0 {
        det_print_column_widths(
            &column_width_minmedmaxs,
            terminal_width - (linenum_width + FRAME_CHAR_WIDTH),
        )
    } else {
        det_print_column_widths(&column_width_minmedmaxs, terminal_width)
    }
}

} // verus!
