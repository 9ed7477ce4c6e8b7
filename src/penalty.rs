//! The penalty score of a symbol, by which a mask is chosen.
use vstd::prelude::*;

use crate::matrix::{grid, is_square};

verus! {

/// Length of the run of equal modules that ends at `j`.
pub open spec fn run_len(line: Seq<bool>, j: int) -> nat
    decreases j,
{
    if j <= 0 {
        1
    } else if line[j] == line[j - 1] {
        run_len(line, j - 1) + 1
    } else {
        1
    }
}

/// What the run ending at `j` adds: `length - 2` for a run of five or more
/// that ends there.
pub open spec fn run_term(line: Seq<bool>, j: int) -> nat {
    if (j == line.len() - 1 || line[j + 1] != line[j]) && run_len(line, j) >= 5 {
        (run_len(line, j) - 2) as nat
    } else {
        0
    }
}

pub open spec fn runs_upto(line: Seq<bool>, n: nat) -> nat
    decreases n,
{
    if n == 0 {
        0
    } else {
        runs_upto(line, (n - 1) as nat) + run_term(line, n - 1)
    }
}

/// The run rule on one line.
pub open spec fn line_runs_spec(line: Seq<bool>) -> nat {
    runs_upto(line, line.len())
}

/// Module `k` of the finder-like pattern `1 0 1 1 1 0 1 0 0 0 0`.
pub open spec fn finder_like_bit(k: int) -> bool {
    k == 0 || k == 2 || k == 3 || k == 4 || k == 6
}

/// Whether the pattern, or its reverse, starts at `i`.
pub open spec fn pattern_at(line: Seq<bool>, i: int, rev: bool) -> bool {
    forall|k: int| 0 <= k < 11 ==> #[trigger] line[i + k] == finder_like_bit(if rev { 10 - k } else { k })
}

pub open spec fn finder_term(line: Seq<bool>, i: int) -> nat {
    (if pattern_at(line, i, false) { 40nat } else { 0nat }) + (if pattern_at(line, i, true) { 40nat } else { 0nat })
}

pub open spec fn finders_upto(line: Seq<bool>, n: nat) -> nat
    decreases n,
{
    if n == 0 {
        0
    } else {
        finders_upto(line, (n - 1) as nat) + finder_term(line, n - 1)
    }
}

/// The finder-like rule on one line: 40 for each occurrence of the pattern
/// and 40 for each occurrence of its reverse.
pub open spec fn line_finders_spec(line: Seq<bool>) -> nat {
    finders_upto(line, (line.len() - 10) as nat)
}

pub open spec fn dark_upto(line: Seq<bool>, n: nat) -> nat
    decreases n,
{
    if n == 0 {
        0
    } else {
        dark_upto(line, (n - 1) as nat) + if line[n - 1] { 1nat } else { 0nat }
    }
}

/// Column `c` of a grid.
pub open spec fn column(g: Seq<Seq<bool>>, c: int) -> Seq<bool> {
    Seq::new(g.len(), |r: int| g[r][c])
}

pub open spec fn row_rules(g: Seq<Seq<bool>>, n: nat) -> nat
    decreases n,
{
    if n == 0 {
        0
    } else {
        row_rules(g, (n - 1) as nat) + line_runs_spec(g[n - 1]) + line_finders_spec(g[n - 1])
    }
}

pub open spec fn column_rules(g: Seq<Seq<bool>>, n: nat) -> nat
    decreases n,
{
    if n == 0 {
        0
    } else {
        column_rules(g, (n - 1) as nat) + line_runs_spec(column(g, n - 1)) + line_finders_spec(
            column(g, n - 1),
        )
    }
}

/// 3 when the 2x2 block at `(i, j)` is of one colour.
pub open spec fn block_term(g: Seq<Seq<bool>>, i: int, j: int) -> nat {
    if g[i][j] == g[i + 1][j] && g[i][j] == g[i][j + 1] && g[i][j] == g[i + 1][j + 1] {
        3
    } else {
        0
    }
}

pub open spec fn blocks_in_row(g: Seq<Seq<bool>>, i: int, n: nat) -> nat
    decreases n,
{
    if n == 0 {
        0
    } else {
        blocks_in_row(g, i, (n - 1) as nat) + block_term(g, i, n - 1)
    }
}

pub open spec fn blocks_upto(g: Seq<Seq<bool>>, n: nat) -> nat
    decreases n,
{
    if n == 0 {
        0
    } else {
        blocks_upto(g, (n - 1) as nat) + blocks_in_row(g, n - 1, (g.len() - 1) as nat)
    }
}

pub open spec fn dark_rows(g: Seq<Seq<bool>>, n: nat) -> nat
    decreases n,
{
    if n == 0 {
        0
    } else {
        dark_rows(g, (n - 1) as nat) + dark_upto(g[n - 1], g[n - 1].len())
    }
}

/// The proportion rule: ten points for each five percent by which the share
/// of dark modules is away from half, rounded to the nearest step.
pub open spec fn proportion_spec(total: nat, dark: nat) -> nat {
    let diff: int = if 10 * total >= 20 * dark { 10 * total - 20 * dark } else { 20 * dark - 10 * total };
    (10 * ((2 * diff + total) / (2 * total as int))) as nat
}

/// The penalty score of a square grid: runs, 2x2 blocks, finder-like
/// patterns and the dark proportion.
#[verifier::opaque]
pub open spec fn penalty_spec(g: Seq<Seq<bool>>) -> nat {
    row_rules(g, g.len()) + column_rules(g, g.len()) + blocks_upto(g, (g.len() - 1) as nat)
        + proportion_spec(g.len() * g.len(), dark_rows(g, g.len()))
}

proof fn lemma_dark_upto_bound(line: Seq<bool>, n: nat)
    ensures
        dark_upto(line, n) <= n,
    decreases n,
{
    if n > 0 {
        lemma_dark_upto_bound(line, (n - 1) as nat);
    }
}

proof fn lemma_dark_rows_bound(g: Seq<Seq<bool>>, w: int, n: nat)
    requires
        is_square(g, w),
        n <= w,
    ensures
        dark_rows(g, n) <= n * w,
    decreases n,
{
    if n > 0 {
        lemma_dark_rows_bound(g, w, (n - 1) as nat);
        lemma_dark_upto_bound(g[n - 1], g[n - 1].len());
        assert((n - 1) * w + w == n * w) by (nonlinear_arith);
    }
}

proof fn lemma_run_len_bound(line: Seq<bool>, j: int)
    requires
        j >= 0,
    ensures
        1 <= run_len(line, j) <= j + 1,
    decreases j,
{
    if j > 0 {
        lemma_run_len_bound(line, j - 1);
    }
}

/// The run rule on one line.
pub fn line_runs(line: &Vec<bool>) -> (r: usize)
    requires
        line@.len() <= 177,
    ensures
        r == line_runs_spec(line@),
        r <= 177 * 177,
{
    let n = line.len();
    let mut acc: usize = 0;
    let mut count: usize = 0;
    let mut j: usize = 0;
    while j < n
        invariant
            n == line@.len() <= 177,
            j <= n,
            acc == runs_upto(line@, j as nat),
            acc <= j * 177,
            j > 0 ==> count == run_len(line@, j - 1),
            count <= j,
        decreases n - j,
    {
        proof {
            if j > 0 {
                lemma_run_len_bound(line@, j - 1);
            }
        }
        if j > 0 && line[j] == line[j - 1] {
            count += 1;
        } else {
            count = 1;
        }
        proof {
            lemma_run_len_bound(line@, j as int);
        }
        let ends = j + 1 == n || line[j + 1] != line[j];
        if ends && count >= 5 {
            acc += count - 2;
        }
        j += 1;
    }
    acc
}

/// Whether the finder-like pattern, or its reverse, starts at `i`.
fn pattern_matches(line: &Vec<bool>, i: usize, rev: bool) -> (r: bool)
    requires
        i + 11 <= line.len(),
    ensures
        r == pattern_at(line@, i as int, rev),
{
    let mut k: usize = 0;
    while k < 11
        invariant
            i + 11 <= line.len(),
            k <= 11,
            forall|q: int| 0 <= q < k ==> #[trigger] line@[i + q] == finder_like_bit(if rev { 10 - q } else { q }),
        decreases 11 - k,
    {
        let idx = if rev {
            10 - k
        } else {
            k
        };
        let bit = idx == 0 || idx == 2 || idx == 3 || idx == 4 || idx == 6;
        if line[i + k] != bit {
            return false;
        }
        k += 1;
    }
    true
}

/// The finder-like rule on one line.
pub fn line_finders(line: &Vec<bool>) -> (r: usize)
    requires
        11 <= line@.len() <= 177,
    ensures
        r == line_finders_spec(line@),
        r <= 80 * 177,
{
    let n = line.len() - 10;
    let mut acc: usize = 0;
    let mut i: usize = 0;
    while i < n
        invariant
            n == line@.len() - 10,
            line@.len() <= 177,
            i <= n,
            acc == finders_upto(line@, i as nat),
            acc <= i * 80,
        decreases n - i,
    {
        if pattern_matches(line, i, false) {
            acc += 40;
        }
        if pattern_matches(line, i, true) {
            acc += 40;
        }
        i += 1;
    }
    acc
}

fn line_dark(line: &Vec<bool>) -> (r: usize)
    requires
        line@.len() <= 177,
    ensures
        r == dark_upto(line@, line@.len()),
        r <= line@.len(),
{
    let mut acc: usize = 0;
    let mut i: usize = 0;
    while i < line.len()
        invariant
            i <= line@.len() <= 177,
            acc == dark_upto(line@, i as nat),
            acc <= i,
        decreases line@.len() - i,
    {
        if line[i] {
            acc += 1;
        }
        i += 1;
    }
    acc
}

fn column_of(data: &Vec<Vec<bool>>, c: usize) -> (r: Vec<bool>)
    requires
        is_square(grid(data), data@.len() as int),
        c < data@.len(),
    ensures
        r@ == column(grid(data), c as int),
{
    let mut res: Vec<bool> = Vec::new();
    let mut i: usize = 0;
    while i < data.len()
        invariant
            is_square(grid(data), data@.len() as int),
            c < data@.len(),
            i <= data@.len(),
            res@ == column(grid(data), c as int).subrange(0, i as int),
        decreases data@.len() - i,
    {
        assert(grid(data)[i as int].len() == data@.len());
        res.push(data[i][c]);
        i += 1;
        assert(res@ =~= column(grid(data), c as int).subrange(0, i as int));
    }
    assert(res@ =~= column(grid(data), c as int));
    res
}

/// The penalty score of a square grid of width 21 to 177.
pub fn score_matrix(data: &Vec<Vec<bool>>) -> (r: usize)
    requires
        21 <= data@.len() <= 177,
        is_square(grid(data), data@.len() as int),
    ensures
        r == penalty_spec(grid(data)),
{
    let ghost g = grid(data);
    let w = data.len();
    let mut rows: usize = 0;
    let mut cols: usize = 0;
    let mut dark: usize = 0;
    let mut i: usize = 0;
    while i < w
        invariant
            w == data@.len() == g.len(),
            21 <= w <= 177,
            g == grid(data),
            is_square(g, w as int),
            i <= w,
            rows == row_rules(g, i as nat),
            cols == column_rules(g, i as nat),
            dark == dark_rows(g, i as nat),
            rows <= i * 45489,
            cols <= i * 45489,
            dark <= i * 177,
        decreases w - i,
    {
        assert(g[i as int] == data@[i as int]@);
        assert(i * 45489 + 45489 <= 177 * 45489);
        let row = &data[i];
        rows = rows + line_runs(row) + line_finders(row);
        dark = dark + line_dark(row);
        let col = column_of(data, i);
        cols = cols + line_runs(&col) + line_finders(&col);
        i += 1;
    }
    let mut blocks: usize = 0;
    let mut a: usize = 0;
    while a < w - 1
        invariant
            w == data@.len() == g.len(),
            21 <= w <= 177,
            g == grid(data),
            is_square(g, w as int),
            a <= w - 1,
            blocks == blocks_upto(g, a as nat),
            blocks <= a * 3 * 177,
        decreases w - 1 - a,
    {
        let mut acc: usize = 0;
        let mut b: usize = 0;
        while b < w - 1
            invariant
                w == data@.len() == g.len(),
                21 <= w <= 177,
                g == grid(data),
                is_square(g, w as int),
                a < w - 1,
                b <= w - 1,
                acc == blocks_in_row(g, a as int, b as nat),
                acc <= b * 3,
            decreases w - 1 - b,
        {
            assert(g[a as int] == data@[a as int]@);
            assert(g[a + 1] == data@[a + 1]@);
            let m = data[a][b];
            if m == data[a + 1][b] && m == data[a][b + 1] && m == data[a + 1][b + 1] {
                acc += 3;
            }
            b += 1;
        }
        blocks = blocks + acc;
        a += 1;
    }
    proof {
        assert(dark <= w * w) by {
            assert(dark_rows(g, w as nat) <= w * w) by {
                lemma_dark_rows_bound(g, w as int, w as nat);
            }
        }
        assert(w * w <= 177 * 177) by (nonlinear_arith)
            requires
                w <= 177,
        ;
        assert(w * w >= 1) by (nonlinear_arith)
            requires
                w >= 1,
        ;
    }
    let total = w * w;
    let diff = if 10 * total >= 20 * dark {
        10 * total - 20 * dark
    } else {
        20 * dark - 10 * total
    };
    let proportion = 10 * ((2 * diff + total) / (2 * total));
    proof {
        assert((2 * diff + total) / (2 * total) <= 10) by {
            assert(2 * diff + total <= 21 * total);
            vstd::arithmetic::div_mod::lemma_div_is_ordered((2 * diff + total) as int, (21 * total) as int, (2 * total) as int);
            vstd::arithmetic::div_mod::lemma_fundamental_div_mod_converse((21 * total) as int, (2 * total) as int, 10, total as int);
        }
    }
    proof {
        reveal(penalty_spec);
    }
    rows + cols + blocks + proportion
}

} // verus!
