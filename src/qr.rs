//! The symbol: fixed patterns, module classification, placement order of
//! the data modules, masking and penalty scoring.
use vstd::prelude::*;

use crate::bitstream::{bytes_bits, Bitstream};
use crate::encoding::{
    codewords_spec, data_len_spec, detect_mode, detect_mode_spec, ec_code_spec, encode, first_fit,
    lemma_block_tables, lemma_body_len, lemma_first_fit_bounds, select_version, ECLevel, Mode,
};
use crate::error::QrError;
use crate::penalty::{penalty_spec, score_matrix};
use crate::rsec::{format_encode_spec, qr_format_encode_masked, QR_FORMAT_MASK};
use crate::matrix::{
    coords_view, draw_bits, draw_number, draw_square, fill_rect, grid, is_square, light_grid,
    new_grid, set_cell, set_module,
};
use crate::tables::{ALIGNMENT_COUNTS, ALIGNMENT_POSITIONS};

verus! {

/// Generator polynomial of the BCH(18,6) code of the version information.
pub const VERSION_GENERATOR: usize = 0x1F25;

/// Width of a symbol: `4v + 17` modules.
pub open spec fn width(v: int) -> int {
    4 * v + 17
}

/// The width of a symbol of a version `1..=40`.
pub fn version_to_width(version: usize) -> (r: Option<usize>)
    ensures
        (1 <= version <= 40) == r.is_some(),
        r.is_some() ==> r.unwrap() == width(version as int),
{
    if version < 1 || version > 40 {
        None
    } else {
        Some((version * 4) + 17)
    }
}

/// Number of alignment coordinates of a version.
pub open spec fn align_count(v: int) -> int {
    ALIGNMENT_COUNTS@[v - 1] as int
}

/// Alignment coordinate `i` of a version.
pub open spec fn align_coord(v: int, i: int) -> usize {
    ALIGNMENT_POSITIONS@[7 * (v - 1) + i] as usize
}

/// The largest alignment coordinate, or zero when there is none.
pub open spec fn align_max(v: int) -> usize {
    if align_count(v) > 0 { align_coord(v, align_count(v) - 1) } else { 0 }
}

/// Whether the centre `(a, b)` would overlap a finder pattern.
pub open spec fn overlaps_finder(v: int, a: usize, b: usize) -> bool {
    ((b == align_max(v) || b == 6) && a == 6) || (a == align_max(v) && b == 6)
}

/// The centres of row `i` of the grid of coordinates, over the first `j` columns.
pub open spec fn align_row(v: int, i: int, j: nat) -> Seq<(usize, usize)>
    decreases j,
{
    if j == 0 {
        Seq::empty()
    } else {
        let a = align_coord(v, i);
        let b = align_coord(v, j - 1);
        align_row(v, i, (j - 1) as nat) + if overlaps_finder(v, a, b) {
            Seq::empty()
        } else {
            seq![(a, b)]
        }
    }
}

/// The centres of the first `i` rows of the grid of coordinates.
pub open spec fn align_rows(v: int, i: nat) -> Seq<(usize, usize)>
    decreases i,
{
    if i == 0 {
        Seq::empty()
    } else {
        align_rows(v, (i - 1) as nat) + align_row(v, i - 1, align_count(v) as nat)
    }
}

/// The alignment-pattern centres of a version, row by row: every pair of
/// alignment coordinates but those that overlap a finder pattern.
pub open spec fn align_centers(v: int) -> Seq<(usize, usize)> {
    align_rows(v, align_count(v) as nat)
}

/// Facts of the alignment table: at most seven coordinates, each at least 6
/// and at most `width - 7`.
pub proof fn lemma_align_table(v: int)
    requires
        1 <= v <= 40,
    ensures
        0 <= align_count(v) <= 7,
        forall|i: int| 0 <= i < align_count(v) ==> 6 <= #[trigger] align_coord(v, i) <= width(v) - 7,
{
    assert(forall|k: int| 0 <= k < 40 ==> #[trigger] ALIGNMENT_COUNTS@[k] <= 7);
    assert(forall|t: int|
        0 <= t < 280 && t % 7 < ALIGNMENT_COUNTS@[t / 7] ==> 6 <= #[trigger] ALIGNMENT_POSITIONS@[t] <= 4 * (t / 7) + 14);
    assert forall|i: int| 0 <= i < align_count(v) implies 6 <= #[trigger] align_coord(v, i) <= width(v) - 7 by {
        let t = 7 * (v - 1) + i;
        assert(t / 7 == v - 1 && t % 7 == i);
    }
}

proof fn lemma_align_row_bounds(v: int, i: int, j: nat)
    requires
        1 <= v <= 40,
        0 <= i < align_count(v),
        j <= align_count(v),
    ensures
        forall|k: int|
            0 <= k < align_row(v, i, j).len() ==> 6 <= (#[trigger] align_row(v, i, j)[k]).0 <= width(v) - 7
                && 6 <= align_row(v, i, j)[k].1 <= width(v) - 7,
    decreases j,
{
    lemma_align_table(v);
    if j > 0 {
        lemma_align_row_bounds(v, i, (j - 1) as nat);
        assert(6 <= align_coord(v, i) <= width(v) - 7);
        assert(6 <= align_coord(v, j - 1) <= width(v) - 7);
        let a = align_row(v, i, (j - 1) as nat);
        assert forall|k: int| 0 <= k < align_row(v, i, j).len() implies 6 <= (#[trigger] align_row(v, i, j)[k]).0
            <= width(v) - 7 && 6 <= align_row(v, i, j)[k].1 <= width(v) - 7 by {
            if k < a.len() {
                assert(align_row(v, i, j)[k] == a[k]);
            }
        }
    }
}

proof fn lemma_align_rows_bounds(v: int, i: nat)
    requires
        1 <= v <= 40,
        i <= align_count(v),
    ensures
        forall|k: int|
            0 <= k < align_rows(v, i).len() ==> 6 <= (#[trigger] align_rows(v, i)[k]).0 <= width(v) - 7
                && 6 <= align_rows(v, i)[k].1 <= width(v) - 7,
    decreases i,
{
    if i > 0 {
        lemma_align_rows_bounds(v, (i - 1) as nat);
        lemma_align_row_bounds(v, i - 1, align_count(v) as nat);
        let a = align_rows(v, (i - 1) as nat);
        let b = align_row(v, i - 1, align_count(v) as nat);
        assert forall|k: int| 0 <= k < align_rows(v, i).len() implies 6 <= (#[trigger] align_rows(v, i)[k]).0
            <= width(v) - 7 && 6 <= align_rows(v, i)[k].1 <= width(v) - 7 by {
            if k < a.len() {
                assert(align_rows(v, i)[k] == a[k]);
            } else {
                assert(align_rows(v, i)[k] == b[k - a.len()]);
            }
        }
    }
}

/// The alignment-pattern centres of a version `1..=40`.
pub fn get_alignment_locations(version: usize) -> (r: Vec<(usize, usize)>)
    requires
        1 <= version <= 40,
    ensures
        r@ == align_centers(version as int),
        forall|k: int|
            0 <= k < r@.len() ==> 6 <= (#[trigger] r@[k]).0 <= width(version as int) - 7 && 6 <= r@[k].1
                <= width(version as int) - 7,
{
    let ghost v = version as int;
    proof {
        lemma_align_table(v);
        lemma_align_rows_bounds(v, align_count(v) as nat);
    }
    let base = 7 * (version - 1);
    let cnt = ALIGNMENT_COUNTS[version - 1] as usize;
    let max: usize = if cnt > 0 {
        ALIGNMENT_POSITIONS[base + cnt - 1] as usize
    } else {
        0
    };
    let mut res: Vec<(usize, usize)> = Vec::new();
    let mut row: usize = 0;
    while row < cnt
        invariant
            1 <= version <= 40,
            v == version,
            base == 7 * (v - 1),
            cnt == align_count(v) <= 7,
            max == align_max(v),
            row <= cnt,
            res@ == align_rows(v, row as nat),
        decreases cnt - row,
    {
        let mut col: usize = 0;
        while col < cnt
            invariant
                1 <= version <= 40,
                v == version,
                base == 7 * (v - 1),
                cnt == align_count(v) <= 7,
                max == align_max(v),
                row < cnt,
                col <= cnt,
                res@ == align_rows(v, row as nat) + align_row(v, row as int, col as nat),
            decreases cnt - col,
        {
            let a = ALIGNMENT_POSITIONS[base + row] as usize;
            let b = ALIGNMENT_POSITIONS[base + col] as usize;
            if ((b == max || b == 6) && a == 6) || (a == max && b == 6) {
            } else {
                res.push((a, b));
            }
            col += 1;
            assert(res@ =~= align_rows(v, row as nat) + align_row(v, row as int, col as nat));
        }
        row += 1;
        assert(res@ =~= align_rows(v, row as nat));
    }
    res
}

/// Reduces the six payload bits above bit 12, from bit `i + 11` down to bit
/// 12, by the version generator.
pub open spec fn version_reduce(res: usize, i: nat) -> usize
    decreases i,
{
    if i == 0 {
        res
    } else {
        let b = (i - 1) as usize;
        let next = if res & (1usize << (b + 12)) != 0 {
            res ^ (VERSION_GENERATOR << b)
        } else {
            res
        };
        version_reduce(next, (i - 1) as nat)
    }
}

/// The 18-bit version information: the version in six bits followed by its
/// twelve BCH check bits.
pub open spec fn version_info_spec(v: usize) -> usize {
    (v << 12usize) | version_reduce(v << 12usize, 6)
}

/// The 18-bit version information of a version.
pub fn version_info(version: usize) -> (r: usize)
    requires
        version <= 40,
    ensures
        r == version_info_spec(version),
{
    let fmt = version << 12usize;
    let mut res = fmt;
    let mut i: usize = 6;
    while i > 0
        invariant
            i <= 6,
            version_reduce(res, i as nat) == version_reduce(fmt, 6),
        decreases i,
    {
        i -= 1;
        if res & (1usize << (i + 12)) != 0 {
            res = res ^ (VERSION_GENERATOR << i);
        }
    }
    fmt | res
}

/// A finder pattern centred at `(r, c)`: dark 7x7 ring, light 5x5 ring,
/// dark 3x3 centre.
pub open spec fn finder_at(g: Seq<Seq<bool>>, r: int, c: int) -> Seq<Seq<bool>> {
    fill_rect(
        fill_rect(fill_rect(g, true, r - 3, c - 3, r + 3, c + 3), false, r - 2, c - 2, r + 2, c + 2),
        true,
        r - 1,
        c - 1,
        r + 1,
        c + 1,
    )
}

/// An alignment pattern centred at `(r, c)`: dark 5x5 ring, light 3x3 ring,
/// dark centre.
pub open spec fn alignment_at(g: Seq<Seq<bool>>, r: int, c: int) -> Seq<Seq<bool>> {
    set_cell(fill_rect(fill_rect(g, true, r - 2, c - 2, r + 2, c + 2), false, r - 1, c - 1, r + 1, c + 1), r, c, true)
}

/// `g` with the alignment patterns at the first `k` centres.
pub open spec fn alignments_at(g: Seq<Seq<bool>>, centers: Seq<(usize, usize)>, k: nat) -> Seq<Seq<bool>>
    decreases k,
{
    if k == 0 {
        g
    } else {
        alignment_at(alignments_at(g, centers, (k - 1) as nat), centers[k - 1].0 as int, centers[k - 1].1 as int)
    }
}

/// Timing patterns on row 6 and column 6, dark at even indices.
pub open spec fn timing_grid(w: int) -> Seq<Seq<bool>> {
    Seq::new(
        w as nat,
        |i: int| Seq::new(w as nat, |j: int| if i == 6 { j % 2 == 0 } else if j == 6 { i % 2 == 0 } else { false }),
    )
}

/// Cells of the version information above the bottom-left finder: cell `t`
/// is `(w - 9 - t % 3, 5 - t / 3)` and gets bit `17 - t`.
pub open spec fn version_coords_a(w: int) -> Seq<(int, int)> {
    Seq::new(18, |t: int| (w - 9 - t % 3, 5 - t / 3))
}

/// The mirrored copy of the version information, left of the top-right
/// finder.
pub open spec fn version_coords_b(w: int) -> Seq<(int, int)> {
    Seq::new(18, |t: int| (5 - t / 3, w - 9 - t % 3))
}

/// `g` with the version information drawn, for versions 7 and up.
pub open spec fn version_drawn(g: Seq<Seq<bool>>, v: int) -> Seq<Seq<bool>> {
    if v < 7 {
        g
    } else {
        let info = version_info_spec(v as usize);
        draw_bits(draw_bits(g, info, version_coords_a(width(v)), 18), info, version_coords_b(width(v)), 18)
    }
}

/// The fixed patterns of a version: timing patterns, the three finders, the
/// alignment patterns, the dark module at `(w - 8, 8)` and the version
/// information, drawn in that order on a light grid.
#[verifier::opaque]
pub open spec fn blank_spec(v: int) -> Seq<Seq<bool>> {
    let w = width(v);
    let f = finder_at(finder_at(finder_at(timing_grid(w), 3, 3), 3, w - 4), w - 4, 3);
    let a = alignments_at(f, align_centers(v), align_centers(v).len());
    version_drawn(set_cell(a, w - 8, 8, true), v)
}

/// Draws a finder pattern centred at `pos`.
pub fn draw_finder(data: &mut Vec<Vec<bool>>, pos: (usize, usize))
    requires
        is_square(grid(old(data)), old(data)@.len() as int),
        3 <= pos.0 <= usize::MAX - 3,
        3 <= pos.1 <= usize::MAX - 3,
    ensures
        grid(final(data)) == finder_at(grid(old(data)), pos.0 as int, pos.1 as int),
        final(data)@.len() == old(data)@.len(),
{
    draw_square(data, true, (pos.0 - 3, pos.1 - 3), (pos.0 + 3, pos.1 + 3));
    draw_square(data, false, (pos.0 - 2, pos.1 - 2), (pos.0 + 2, pos.1 + 2));
    draw_square(data, true, (pos.0 - 1, pos.1 - 1), (pos.0 + 1, pos.1 + 1));
}

/// Draws an alignment pattern centred at `pos`.
pub fn draw_alignment(data: &mut Vec<Vec<bool>>, pos: (usize, usize))
    requires
        is_square(grid(old(data)), old(data)@.len() as int),
        2 <= pos.0 <= usize::MAX - 2,
        2 <= pos.1 <= usize::MAX - 2,
        pos.0 < old(data)@.len(),
        pos.1 < old(data)@.len(),
    ensures
        grid(final(data)) == alignment_at(grid(old(data)), pos.0 as int, pos.1 as int),
        final(data)@.len() == old(data)@.len(),
{
    draw_square(data, true, (pos.0 - 2, pos.1 - 2), (pos.0 + 2, pos.1 + 2));
    draw_square(data, false, (pos.0 - 1, pos.1 - 1), (pos.0 + 1, pos.1 + 1));
    assert(grid(data)[pos.0 as int].len() == data@.len());
    set_module(data, pos.0, pos.1, true);
}

/// Draws the version information, for versions 7 and up.
pub fn draw_version(data: &mut Vec<Vec<bool>>, version: usize)
    requires
        1 <= version <= 40,
        old(data)@.len() == width(version as int),
        is_square(grid(old(data)), width(version as int)),
    ensures
        grid(final(data)) == version_drawn(grid(old(data)), version as int),
        is_square(grid(final(data)), width(version as int)),
        final(data)@.len() == old(data)@.len(),
{
    if version < 7 {
        return;
    }
    let max = version * 4 + 17;
    let ver = version_info(version);
    let mut a: Vec<(usize, usize)> = Vec::new();
    let mut b: Vec<(usize, usize)> = Vec::new();
    let mut t: usize = 0;
    while t < 18
        invariant
            t <= 18,
            max == width(version as int),
            7 <= version <= 40,
            a@.len() == t,
            b@.len() == t,
            forall|k: int| 0 <= k < t ==> coords_view(a@)[k] == #[trigger] version_coords_a(max as int)[k],
            forall|k: int| 0 <= k < t ==> coords_view(b@)[k] == #[trigger] version_coords_b(max as int)[k],
            forall|k: int| 0 <= k < t ==> (#[trigger] a@[k]).0 < max && a@[k].1 < max,
            forall|k: int| 0 <= k < t ==> (#[trigger] b@[k]).0 < max && b@[k].1 < max,
        decreases 18 - t,
    {
        a.push((max - 9 - t % 3, 5 - t / 3));
        b.push((5 - t / 3, max - 9 - t % 3));
        t += 1;
    }
    assert(coords_view(a@) =~= version_coords_a(max as int));
    assert(coords_view(b@) =~= version_coords_b(max as int));
    draw_number(data, ver, &a);
    draw_number(data, ver, &b);
}

/// The matrix of a version `1..=40` with every fixed pattern drawn; none for
/// any other version.
pub fn make_fixed_patterns(version: usize) -> (r: Option<Vec<Vec<bool>>>)
    ensures
        (1 <= version <= 40) == r.is_some(),
        r.is_some() ==> grid(&r.unwrap()) == blank_spec(version as int) && r.unwrap()@.len() == width(
            version as int,
        ),
{
    if version < 1 || version > 40 {
        return None;
    }
    let ghost v = version as int;
    let max = version * 4 + 17;
    let mut res = new_grid(max);
    let mut row: usize = 0;
    assert(grid(&res) =~~= Seq::new(
        max as nat,
        |i: int| Seq::new(max as nat, |j: int| if j == 6 && i < row { i % 2 == 0 } else { false }),
    ));
    while row < max
        invariant
            max == width(v),
            1 <= v <= 40,
            res@.len() == max,
            row <= max,
            grid(&res) == Seq::new(
                max as nat,
                |i: int| Seq::new(max as nat, |j: int| if j == 6 && i < row { i % 2 == 0 } else { false }),
            ),
        decreases max - row,
    {
        assert(grid(&res)[row as int].len() == max);
        set_module(&mut res, row, 6, row % 2 == 0);
        row += 1;
        assert(grid(&res) =~~= Seq::new(
            max as nat,
            |i: int| Seq::new(max as nat, |j: int| if j == 6 && i < row { i % 2 == 0 } else { false }),
        ));
    }
    let mut col: usize = 0;
    assert(grid(&res) =~~= Seq::new(
        max as nat,
        |i: int|
            Seq::new(
                max as nat,
                |j: int| if i == 6 && j < col { j % 2 == 0 } else if j == 6 { i % 2 == 0 } else { false },
            ),
    ));
    while col < max
        invariant
            max == width(v),
            1 <= v <= 40,
            res@.len() == max,
            col <= max,
            grid(&res) == Seq::new(
                max as nat,
                |i: int|
                    Seq::new(
                        max as nat,
                        |j: int| if i == 6 && j < col { j % 2 == 0 } else if j == 6 { i % 2 == 0 } else { false },
                    ),
            ),
        decreases max - col,
    {
        assert(grid(&res)[6].len() == max);
        set_module(&mut res, 6, col, col % 2 == 0);
        col += 1;
        assert(grid(&res) =~~= Seq::new(
            max as nat,
            |i: int|
                Seq::new(
                    max as nat,
                    |j: int| if i == 6 && j < col { j % 2 == 0 } else if j == 6 { i % 2 == 0 } else { false },
                ),
        ));
    }
    assert(grid(&res) =~~= timing_grid(max as int));
    draw_finder(&mut res, (3, 3));
    draw_finder(&mut res, (3, max - 4));
    draw_finder(&mut res, (max - 4, 3));
    let ghost f = grid(&res);
    let centers = get_alignment_locations(version);
    let mut k: usize = 0;
    while k < centers.len()
        invariant
            max == width(v),
            1 <= v <= 40,
            res@.len() == max,
            is_square(grid(&res), max as int),
            k <= centers@.len(),
            centers@ == align_centers(v),
            forall|q: int|
                0 <= q < centers@.len() ==> 6 <= (#[trigger] centers@[q]).0 <= max - 7 && 6 <= centers@[q].1
                    <= max - 7,
            grid(&res) == alignments_at(f, centers@, k as nat),
        decreases centers@.len() - k,
    {
        draw_alignment(&mut res, centers[k]);
        k += 1;
    }
    assert(grid(&res)[max - 8].len() == max);
    set_module(&mut res, max - 8, 8, true);
    draw_version(&mut res, version);
    proof {
        reveal(blank_spec);
    }
    Some(res)
}

/// Whether `(r, c)` lies within the 5x5 area of an alignment pattern.
pub open spec fn near_alignment(v: int, r: int, c: int) -> bool {
    exists|k: int|
        0 <= k < align_centers(v).len() && #[trigger] abs_diff(r, align_centers(v)[k].0 as int) < 3 && abs_diff(
            c,
            align_centers(v)[k].1 as int,
        ) < 3
}

pub open spec fn abs_diff(a: int, b: int) -> int {
    if a >= b { a - b } else { b - a }
}

/// Whether `pos` lies within an alignment pattern of a version `1..=40`.
pub fn is_alignment_pattern(version: usize, pos: (usize, usize)) -> (r: bool)
    requires
        1 <= version <= 40,
    ensures
        r == near_alignment(version as int, pos.0 as int, pos.1 as int),
{
    let centers = get_alignment_locations(version);
    let mut k: usize = 0;
    while k < centers.len()
        invariant
            k <= centers@.len(),
            centers@ == align_centers(version as int),
            forall|q: int|
                0 <= q < k ==> !(#[trigger] abs_diff(pos.0 as int, centers@[q].0 as int) < 3 && abs_diff(
                    pos.1 as int,
                    centers@[q].1 as int,
                ) < 3),
        decreases centers@.len() - k,
    {
        let (a, b) = centers[k];
        let da = if a >= pos.0 {
            a - pos.0
        } else {
            pos.0 - a
        };
        let db = if b >= pos.1 {
            b - pos.1
        } else {
            pos.1 - b
        };
        if da < 3 && db < 3 {
            assert(abs_diff(pos.0 as int, centers@[k as int].0 as int) < 3);
            return true;
        }
        k += 1;
    }
    false
}

/// The role of a module in the symbol.
#[derive(Debug, PartialEq, Eq, Clone, Copy, Structural)]
pub enum ModuleType {
    Finder,
    Alignment,
    Timing,
    Pixel,
    Version,
    Format,
    Data,
}

/// The role of module `(r, c)` in a symbol of version `v`.
pub open spec fn module_type_spec(v: int, r: int, c: int) -> ModuleType {
    let w = width(v);
    if (r <= 7 && c <= 7) || (r <= 7 && c >= w - 8) || (r >= w - 8 && c <= 7) {
        ModuleType::Finder
    } else if near_alignment(v, r, c) {
        ModuleType::Alignment
    } else if r == 6 || c == 6 {
        ModuleType::Timing
    } else if r == w - 8 && c == 8 {
        ModuleType::Pixel
    } else if v > 6 && ((w - 11 <= r <= w - 9 && c <= 5) || (r <= 5 && w - 11 <= c <= w - 9)) {
        ModuleType::Version
    } else if (r == 8 && (c <= 8 || c >= w - 8)) || (c == 8 && (r <= 8 || r >= w - 8)) {
        ModuleType::Format
    } else {
        ModuleType::Data
    }
}

pub open spec fn is_data_spec(v: int, r: int, c: int) -> bool {
    module_type_spec(v, r, c) == ModuleType::Data
}

/// The role of module `pos` in a symbol of a version `1..=40`.
pub fn module_type(version: usize, pos: (usize, usize)) -> (r: ModuleType)
    requires
        1 <= version <= 40,
        pos.0 < width(version as int),
        pos.1 < width(version as int),
    ensures
        r == module_type_spec(version as int, pos.0 as int, pos.1 as int),
{
    let max = version * 4 + 17;
    let (r, c) = pos;
    if (r <= 7 && c <= 7) || (r <= 7 && c >= max - 8) || (r >= max - 8 && c <= 7) {
        return ModuleType::Finder;
    }
    if is_alignment_pattern(version, pos) {
        return ModuleType::Alignment;
    }
    if r == 6 || c == 6 {
        return ModuleType::Timing;
    }
    if r == max - 8 && c == 8 {
        return ModuleType::Pixel;
    }
    if version > 6 && ((max - 11 <= r && r <= max - 9 && c <= 5) || (r <= 5 && max - 11 <= c && c <= max - 9)) {
        return ModuleType::Version;
    }
    if (r == 8 && (c <= 8 || c >= max - 8)) || (c == 8 && (r <= 8 || r >= max - 8)) {
        return ModuleType::Format;
    }
    ModuleType::Data
}

/// Whether `pos` is a data module of a version `1..=40`.
pub fn is_data_module(version: usize, pos: (usize, usize)) -> (r: bool)
    requires
        1 <= version <= 40,
        pos.0 < width(version as int),
        pos.1 < width(version as int),
    ensures
        r == is_data_spec(version as int, pos.0 as int, pos.1 as int),
{
    match module_type(version, pos) {
        ModuleType::Data => true,
        _ => false,
    }
}

/// Right column of stripe `k`, stripes counted from the right, column 6
/// skipped.
pub open spec fn stripe_right(w: int, k: int) -> int {
    if w - 1 - 2 * k > 6 { w - 1 - 2 * k } else { w - 2 - 2 * k }
}

/// Cell `t` of the zig-zag walk: stripes of two columns from right to left,
/// the first upward and then alternating, the right column before the left
/// one in each row.
pub open spec fn zigzag_cell(w: int, t: int) -> (int, int) {
    let k = t / (2 * w);
    let u = t % (2 * w);
    let step = u / 2;
    let r = if k % 2 == 0 { w - 1 - step } else { step };
    (r, stripe_right(w, k) - u % 2)
}

/// The data modules among the first `t` cells of the walk, in order.
pub open spec fn data_order(v: int, t: nat) -> Seq<(int, int)>
    decreases t,
{
    if t == 0 {
        Seq::empty()
    } else {
        let p = zigzag_cell(width(v), t - 1);
        data_order(v, (t - 1) as nat) + if is_data_spec(v, p.0, p.1) { seq![p] } else { Seq::empty() }
    }
}

/// All data modules of a version in placement order.
pub open spec fn data_positions_spec(v: int) -> Seq<(int, int)> {
    let w = width(v);
    data_order(v, ((w - 1) / 2 * (2 * w)) as nat)
}

/// All data modules of a version `1..=40`, in placement order.
pub fn data_positions(version: usize) -> (r: Vec<(usize, usize)>)
    requires
        1 <= version <= 40,
    ensures
        coords_view(r@) == data_positions_spec(version as int),
        forall|i: int| 0 <= i < r@.len() ==> (#[trigger] r@[i]).0 < width(version as int) && r@[i].1 < width(
            version as int,
        ),
{
    let ghost v = version as int;
    let w = version * 4 + 17;
    let nstripes = (w - 1) / 2;
    let mut res: Vec<(usize, usize)> = Vec::new();
    let mut k: usize = 0;
    while k < nstripes
        invariant
            1 <= v <= 40,
            v == version,
            w == width(v),
            nstripes == (w - 1) / 2,
            k <= nstripes,
            coords_view(res@) == data_order(v, (k * (2 * w)) as nat),
            forall|i: int| 0 <= i < res@.len() ==> (#[trigger] res@[i]).0 < w && res@[i].1 < w,
        decreases nstripes - k,
    {
        let right = if w - 1 - 2 * k > 6 {
            w - 1 - 2 * k
        } else {
            w - 2 - 2 * k
        };
        let mut step: usize = 0;
        while step < w
            invariant
                1 <= v <= 40,
                v == version,
                w == width(v),
                nstripes == (w - 1) / 2,
                k < nstripes,
                right == stripe_right(w as int, k as int),
                step <= w,
                coords_view(res@) == data_order(v, (k * (2 * w) + 2 * step) as nat),
                forall|i: int| 0 <= i < res@.len() ==> (#[trigger] res@[i]).0 < w && res@[i].1 < w,
            decreases w - step,
        {
            let r = if k % 2 == 0 {
                w - 1 - step
            } else {
                step
            };
            let mut side: usize = 0;
            while side < 2
                invariant
                    1 <= v <= 40,
                    v == version,
                    w == width(v),
                    nstripes == (w - 1) / 2,
                    k < nstripes,
                    right == stripe_right(w as int, k as int),
                    step < w,
                    r == if k % 2 == 0 { w - 1 - step } else { step as int },
                    side <= 2,
                    coords_view(res@) == data_order(v, (k * (2 * w) + 2 * step + side) as nat),
                    forall|i: int| 0 <= i < res@.len() ==> (#[trigger] res@[i]).0 < w && res@[i].1 < w,
                decreases 2 - side,
            {
                let c = right - side;
                let ghost t = k * (2 * w) + 2 * step + side;
                proof {
                    vstd::arithmetic::div_mod::lemma_fundamental_div_mod_converse(
                        t as int,
                        (2 * w) as int,
                        k as int,
                        (2 * step + side) as int,
                    );
                    assert(zigzag_cell(w as int, t as int) == (r as int, c as int));
                }
                if is_data_module(version, (r, c)) {
                    res.push((r, c));
                }
                side += 1;
                assert(coords_view(res@) =~= data_order(v, (k * (2 * w) + 2 * step + side) as nat));
            }
            step += 1;
        }
        assert((k + 1) * (2 * w) == k * (2 * w) + 2 * w) by (nonlinear_arith);
        k += 1;
    }
    res
}

/// A cursor over the data modules of a version, in placement order.
pub struct ModuleOrder {
    positions: Vec<(usize, usize)>,
    index: usize,
}

impl ModuleOrder {
    /// The data modules still to come.
    pub closed spec fn remaining(&self) -> Seq<(int, int)> {
        if self.index <= self.positions@.len() {
            coords_view(self.positions@).skip(self.index as int)
        } else {
            Seq::empty()
        }
    }

    /// A cursor at the first data module of a version `1..=40`.
    pub fn new(version: usize) -> (r: Self)
        requires
            1 <= version <= 40,
        ensures
            r.remaining() == data_positions_spec(version as int),
    {
        let positions = data_positions(version);
        let r = ModuleOrder { positions, index: 0 };
        assert(r.remaining() =~= data_positions_spec(version as int));
        r
    }

    /// The next data module, if any is left.
    pub fn next(&mut self) -> (r: Option<(usize, usize)>)
        ensures
            old(self).remaining().len() == 0 ==> r.is_none() && final(self).remaining() == old(
                self,
            ).remaining(),
            old(self).remaining().len() > 0 ==> r.is_some() && (r.unwrap().0 as int, r.unwrap().1 as int)
                == old(self).remaining()[0] && final(self).remaining() == old(self).remaining().skip(1),
    {
        if self.index >= self.positions.len() {
            return None;
        }
        let p = self.positions[self.index];
        assert(old(self).remaining()[0] == coords_view(self.positions@)[self.index as int]);
        self.index = self.index + 1;
        assert(self.remaining() =~= old(self).remaining().skip(1));
        Some(p)
    }
}

/// First copy of the format information, around the top-left finder:
/// cell `t` gets bit `14 - t`.
pub open spec fn format_coords_a() -> Seq<(int, int)> {
    seq![(8, 0), (8, 1), (8, 2), (8, 3), (8, 4), (8, 5), (8, 7), (8, 8), (7, 8), (5, 8), (4, 8), (3, 8), (2, 8), (1, 8), (0, 8)]
}

/// Second copy, below the top-right and beside the bottom-left finder.
pub open spec fn format_coords_b(w: int) -> Seq<(int, int)> {
    let m = w - 1;
    seq![
        (m, 8), (m - 1, 8), (m - 2, 8), (m - 3, 8), (m - 4, 8), (m - 5, 8), (m - 6, 8), (8, m - 7),
        (8, m - 6), (8, m - 5), (8, m - 4), (8, m - 3), (8, m - 2), (8, m - 1), (8, m)
    ]
}

/// The masked 15-bit format word of a level and mask.
pub open spec fn format_word(ec: ECLevel, mask: usize) -> usize {
    format_encode_spec((ec_code_spec(ec) << 3usize) | mask) ^ QR_FORMAT_MASK
}

/// `g` with both copies of the format information stamped.
pub open spec fn format_drawn(g: Seq<Seq<bool>>, w: int, ec: ECLevel, mask: usize) -> Seq<Seq<bool>> {
    let f = format_word(ec, mask);
    draw_bits(draw_bits(g, f, format_coords_a(), 15), f, format_coords_b(w), 15)
}

/// Mask pattern `k` at `(r, c)`: `true` where the module is inverted.
pub open spec fn mask_bit(k: usize, r: int, c: int) -> bool {
    if k == 0 {
        (r + c) % 2 == 0
    } else if k == 1 {
        r % 2 == 0
    } else if k == 2 {
        c % 3 == 0
    } else if k == 3 {
        (r + c) % 3 == 0
    } else if k == 4 {
        (r / 2 + c / 3) % 2 == 0
    } else if k == 5 {
        (r * c) % 2 + (r * c) % 3 == 0
    } else if k == 6 {
        ((r * c) % 2 + (r * c) % 3) % 2 == 0
    } else {
        ((r + c) % 2 + (r * c) % 3) % 2 == 0
    }
}

/// `g` with mask `k` applied to the data modules of version `v`.
pub open spec fn xor_data(g: Seq<Seq<bool>>, v: int, k: usize) -> Seq<Seq<bool>> {
    Seq::new(
        g.len(),
        |r: int| Seq::new(g[r].len(), |c: int| if is_data_spec(v, r, c) { g[r][c] != mask_bit(k, r, c) } else { g[r][c] }),
    )
}

/// A symbol masked with pattern `k` and stamped with its format information.
#[verifier::opaque]
pub open spec fn masked_spec(g: Seq<Seq<bool>>, v: int, ec: ECLevel, k: usize) -> Seq<Seq<bool>> {
    format_drawn(xor_data(g, v, k), width(v), ec, k)
}

/// Of the masks `0..n`, the first with the least penalty.
pub open spec fn best_mask_upto(g: Seq<Seq<bool>>, v: int, ec: ECLevel, n: nat) -> usize
    decreases n,
{
    if n <= 1 {
        0
    } else {
        let b = best_mask_upto(g, v, ec, (n - 1) as nat);
        if penalty_spec(masked_spec(g, v, ec, (n - 1) as usize)) < penalty_spec(masked_spec(g, v, ec, b)) {
            (n - 1) as usize
        } else {
            b
        }
    }
}

/// The mask of least penalty, the smallest index on a tie.
pub open spec fn best_mask(g: Seq<Seq<bool>>, v: int, ec: ECLevel) -> usize {
    best_mask_upto(g, v, ec, 8)
}

/// Whether mask pattern `mask` inverts module `(r, c)`.
pub fn mask_applies(mask: usize, r: usize, c: usize) -> (b: bool)
    requires
        mask < 8,
        r < 200,
        c < 200,
    ensures
        b == mask_bit(mask, r as int, c as int),
{
    assert(r * c < 40000) by (nonlinear_arith)
        requires
            r < 200,
            c < 200,
    ;
    match mask {
        0 => (r + c) % 2 == 0,
        1 => r % 2 == 0,
        2 => c % 3 == 0,
        3 => (r + c) % 3 == 0,
        4 => (r / 2 + c / 3) % 2 == 0,
        5 => (r * c) % 2 + (r * c) % 3 == 0,
        6 => ((r * c) % 2 + (r * c) % 3) % 2 == 0,
        _ => ((r + c) % 2 + (r * c) % 3) % 2 == 0,
    }
}

/// A symbol: its version, its error-correction level and its modules,
/// `data[row][col]`, `true` for dark.
#[derive(Debug, Clone)]
pub struct Qr {
    pub data: Vec<Vec<bool>>,
    pub version: usize,
    pub ec: ECLevel,
}

impl Qr {
    /// The version is in range and the modules form a square of its width.
    pub open spec fn wf(&self) -> bool {
        &&& 1 <= self.version <= 40
        &&& self.data@.len() == width(self.version as int)
        &&& is_square(grid(&self.data), width(self.version as int))
    }

    /// The symbol of a version `1..=40` with only the fixed patterns drawn.
    pub fn make_blank(version: usize, ec: ECLevel) -> (r: Self)
        requires
            1 <= version <= 40,
        ensures
            r.wf(),
            r.version == version,
            r.ec == ec,
            grid(&r.data) == blank_spec(version as int),
    {
        let data = make_fixed_patterns(version).unwrap();
        proof {
            lemma_blank_square(version as int);
        }
        Qr { data, version, ec }
    }

    /// The penalty score of the symbol.
    pub fn score(&self) -> (r: usize)
        requires
            self.wf(),
        ensures
            r == penalty_spec(grid(&self.data)),
    {
        score_matrix(&self.data)
    }
}

/// The fixed patterns form a square of the symbol's width.
pub proof fn lemma_blank_square(v: int)
    requires
        1 <= v <= 40,
    ensures
        is_square(blank_spec(v), width(v)),
{
    reveal(blank_spec);
    let w = width(v);
    let t = timing_grid(w);
    assert(is_square(t, w));
    let f = finder_at(finder_at(finder_at(t, 3, 3), 3, w - 4), w - 4, 3);
    assert(is_square(f, w));
    lemma_align_rows_bounds(v, align_count(v) as nat);
    lemma_alignments_square(f, w, align_centers(v), align_centers(v).len());
    let a = alignments_at(f, align_centers(v), align_centers(v).len());
    let p = set_cell(a, w - 8, 8, true);
    assert(is_square(p, w));
    if v >= 7 {
        let info = version_info_spec(v as usize);
        crate::matrix::lemma_draw_bits_square(p, w, info, version_coords_a(w), 18);
        crate::matrix::lemma_draw_bits_square(draw_bits(p, info, version_coords_a(w), 18), w, info, version_coords_b(w), 18);
    }
}

proof fn lemma_alignments_square(g: Seq<Seq<bool>>, w: int, centers: Seq<(usize, usize)>, k: nat)
    requires
        is_square(g, w),
        k <= centers.len(),
        forall|q: int| 0 <= q < centers.len() ==> 2 <= (#[trigger] centers[q]).0 < w - 2 && 2 <= centers[q].1 < w - 2,
    ensures
        is_square(alignments_at(g, centers, k), w),
    decreases k,
{
    if k > 0 {
        lemma_alignments_square(g, w, centers, (k - 1) as nat);
        let c = centers[k - 1];
        assert(2 <= c.0 < w - 2 && 2 <= c.1 < w - 2);
    }
}

/// Stamps both copies of the format information for the symbol's level and
/// mask `mask`.
pub fn draw_format(qr: &mut Qr, mask: usize)
    requires
        old(qr).wf(),
        mask < 8,
    ensures
        final(qr).wf(),
        final(qr).version == old(qr).version,
        final(qr).ec == old(qr).ec,
        grid(&final(qr).data) == format_drawn(grid(&old(qr).data), width(old(qr).version as int), old(qr).ec, mask),
{
    let code = qr.ec.code();
    assert(((code << 3usize) | mask) <= 31) by (bit_vector)
        requires
            code <= 3,
            mask < 8,
    ;
    let form = qr_format_encode_masked((code << 3usize) | mask);
    let max = qr.version * 4 + 17 - 1;
    let a: Vec<(usize, usize)> = vec![(8, 0), (8, 1), (8, 2), (8, 3), (8, 4), (8, 5), (8, 7), (8, 8), (7, 8), (5, 8), (4, 8), (3, 8), (2, 8), (1, 8), (0, 8)];
    let b: Vec<(usize, usize)> = vec![
        (max, 8), (max - 1, 8), (max - 2, 8), (max - 3, 8), (max - 4, 8), (max - 5, 8), (max - 6, 8), (8, max - 7),
        (8, max - 6), (8, max - 5), (8, max - 4), (8, max - 3), (8, max - 2), (8, max - 1), (8, max)
    ];
    assert(coords_view(a@) =~= format_coords_a());
    assert(coords_view(b@) =~= format_coords_b(max + 1));
    draw_number(&mut qr.data, form, &a);
    draw_number(&mut qr.data, form, &b);
}

/// The symbol with mask `mask` applied to its data modules and the format
/// information stamped.
pub fn apply_mask(qr: &Qr, mask: usize) -> (r: Qr)
    requires
        qr.wf(),
        mask < 8,
    ensures
        r.wf(),
        r.version == qr.version,
        r.ec == qr.ec,
        grid(&r.data) == masked_spec(grid(&qr.data), qr.version as int, qr.ec, mask),
{
    let ghost g = grid(&qr.data);
    let w = qr.data.len();
    let mut rows: Vec<Vec<bool>> = Vec::new();
    let mut i: usize = 0;
    while i < w
        invariant
            qr.wf(),
            g == grid(&qr.data),
            w == width(qr.version as int),
            mask < 8,
            i <= w,
            rows@.len() == i,
            forall|a: int| 0 <= a < i ==> (#[trigger] rows@[a])@ == xor_data(g, qr.version as int, mask)[a],
        decreases w - i,
    {
        let mut row: Vec<bool> = Vec::new();
        let mut j: usize = 0;
        assert(g[i as int] == qr.data@[i as int]@);
        while j < w
            invariant
                qr.wf(),
                g == grid(&qr.data),
                g[i as int] == qr.data@[i as int]@,
                w == width(qr.version as int),
                mask < 8,
                i < w,
                j <= w,
                row@ == xor_data(g, qr.version as int, mask)[i as int].subrange(0, j as int),
            decreases w - j,
        {
            let m = qr.data[i][j];
            let v = if is_data_module(qr.version, (i, j)) {
                m != mask_applies(mask, i, j)
            } else {
                m
            };
            row.push(v);
            j += 1;
            assert(row@ =~= xor_data(g, qr.version as int, mask)[i as int].subrange(0, j as int));
        }
        assert(row@ =~= xor_data(g, qr.version as int, mask)[i as int]);
        rows.push(row);
        i += 1;
    }
    assert(grid(&rows) =~= xor_data(g, qr.version as int, mask));
    let mut res = Qr { data: rows, version: qr.version, ec: qr.ec };
    draw_format(&mut res, mask);
    proof {
        reveal(masked_spec);
    }
    res
}

/// The symbol masked with the pattern of least penalty.
#[verifier::rlimit(40)]
pub fn apply_best_mask(qr: &Qr) -> (r: Qr)
    requires
        qr.wf(),
    ensures
        r.wf(),
        r.version == qr.version,
        r.ec == qr.ec,
        grid(&r.data) == masked_spec(grid(&qr.data), qr.version as int, qr.ec, best_mask(grid(&qr.data), qr.version as int, qr.ec)),
{
    let ghost g = grid(&qr.data);
    let ghost v = qr.version as int;
    let mut best = apply_mask(qr, 0);
    let mut best_score = best.score();
    let mut k: usize = 1;
    while k < 8
        invariant
            qr.wf(),
            g == grid(&qr.data),
            v == qr.version,
            1 <= k <= 8,
            best.wf(),
            best.version == qr.version,
            best.ec == qr.ec,
            grid(&best.data) == masked_spec(g, v, qr.ec, best_mask_upto(g, v, qr.ec, k as nat)),
            best_score == penalty_spec(grid(&best.data)),
        decreases 8 - k,
    {
        let candidate = apply_mask(qr, k);
        let s = candidate.score();
        if s < best_score {
            best = candidate;
            best_score = s;
        }
        k += 1;
    }
    best
}

/// `g` with `bits[t]` written at `pos[t]` for the first `k` positions.
pub open spec fn place_bits(g: Seq<Seq<bool>>, bits: Seq<bool>, pos: Seq<(int, int)>, k: nat) -> Seq<Seq<bool>>
    decreases k,
{
    if k == 0 {
        g
    } else {
        set_cell(place_bits(g, bits, pos, (k - 1) as nat), pos[k - 1].0, pos[k - 1].1, bits[k - 1])
    }
}

/// The symbol of a message, or why there is none: level `ec` (medium by
/// default), the smallest fitting version from `min_version` (1 by default),
/// the codewords placed in zig-zag order with unused modules light, and the
/// given mask or else the one of least penalty.
pub open spec fn make_qr_spec(
    s: Seq<char>,
    ec: Option<ECLevel>,
    mask: Option<usize>,
    min_version: Option<usize>,
) -> Result<(int, ECLevel, Seq<Seq<bool>>), QrError> {
    let e = match ec {
        Some(x) => x,
        None => ECLevel::Medium,
    };
    let mv = match min_version {
        Some(x) => x as int,
        None => 1,
    };
    if mask.is_some() && mask.unwrap() > 7 {
        Err(QrError::InvalidMask)
    } else if !(1 <= mv <= 40) {
        Err(QrError::InvalidVersion)
    } else {
        match detect_mode_spec(s) {
            None => Err(QrError::UnsupportedInput),
            Some(mode) => match first_fit(mode, s.len(), e, mv) {
                None => Err(QrError::Capacity),
                Some(v) => {
                    let bits = bytes_bits(codewords_spec(mode, s, v, e));
                    let pos = data_positions_spec(v);
                    let n = if bits.len() < pos.len() { bits.len() } else { pos.len() };
                    let g = place_bits(blank_spec(v), bits, pos, n);
                    let k = match mask {
                        Some(k) => k,
                        None => best_mask(g, v, e),
                    };
                    Ok((v, e, masked_spec(g, v, e, k)))
                },
            },
        }
    }
}

proof fn lemma_too_long(mode: Mode, n: nat, ec: ECLevel, mv: int)
    requires
        n > 65535,
        mode != Mode::Kanji,
    ensures
        first_fit(mode, n, ec, mv).is_none(),
    decreases 41 - mv,
{
    if 1 <= mv <= 40 {
        lemma_block_tables(mv, ec);
        assert(data_len_spec(mode, n) >= 3 * n) by {
            lemma_body_len(mode, Seq::new(n, |i: int| '0'));
        }
        lemma_too_long(mode, n, ec, mv + 1);
    }
}

impl Qr {
    /// Encodes `data` as a symbol.
    #[verifier::rlimit(60)]
    pub fn make_qr(data: &str, ec: Option<ECLevel>, mask: Option<usize>, min_version: Option<usize>) -> (r: Result<
        Qr,
        QrError,
    >)
        ensures
            match make_qr_spec(data@, ec, mask, min_version) {
                Ok((v, e, g)) => r.is_ok() && r.unwrap().wf() && r.unwrap().version == v && r.unwrap().ec == e
                    && grid(&r.unwrap().data) == g,
                Err(err) => r == Err::<Qr, QrError>(err),
            },
    {
        let e = match ec {
            Some(x) => x,
            None => ECLevel::Medium,
        };
        let mv = match min_version {
            Some(x) => x,
            None => 1,
        };
        if let Some(k) = mask {
            if k > 7 {
                return Err(QrError::InvalidMask);
            }
        }
        if mv < 1 || mv > 40 {
            return Err(QrError::InvalidVersion);
        }
        let mode = match detect_mode(data) {
            Ok(m) => m,
            Err(err) => {
                return Err(err);
            },
        };
        let n = data.unicode_len();
        if n > 65535 {
            proof {
                lemma_too_long(mode, n as nat, e, mv as int);
            }
            return Err(QrError::Capacity);
        }
        let version = match select_version(mode, n, e, mv) {
            Ok(v) => v,
            Err(err) => {
                return Err(err);
            },
        };
        proof {
            lemma_first_fit_bounds(mode, n as nat, e, mv as int);
        }
        let codewords = encode(data, mode, version, e).unwrap();
        let bits = Bitstream::from_bytes(codewords.as_slice()).into_bits();
        let positions = data_positions(version);
        let mut qr = Qr::make_blank(version, e);
        let ghost g0 = grid(&qr.data);
        let count = if bits.len() < positions.len() {
            bits.len()
        } else {
            positions.len()
        };
        let mut t: usize = 0;
        while t < count
            invariant
                qr.wf(),
                qr.version == version,
                qr.ec == e,
                count <= bits@.len(),
                count <= positions@.len(),
                t <= count,
                forall|i: int| 0 <= i < positions@.len() ==> (#[trigger] positions@[i]).0 < width(version as int)
                    && positions@[i].1 < width(version as int),
                grid(&qr.data) == place_bits(g0, bits@, coords_view(positions@), t as nat),
            decreases count - t,
        {
            let (r, c) = positions[t];
            assert(grid(&qr.data)[r as int].len() == qr.data@.len());
            set_module(&mut qr.data, r, c, bits[t]);
            t += 1;
        }
        let res = match mask {
            Some(k) => apply_mask(&qr, k),
            None => apply_best_mask(&qr),
        };
        Ok(res)
    }
}

/// Whether `(r, c)` holds a bit of either copy of the format information.
pub open spec fn is_format_cell(w: int, r: int, c: int) -> bool {
    exists|t: int| 0 <= t < 15 && (#[trigger] format_coords_a()[t] == (r, c) || format_coords_b(w)[t] == (r, c))
}

/// The fixed patterns depend on the version alone: any two symbols of one
/// version made blank, whatever their levels, hold the same modules.
pub proof fn lemma_blank_depends_on_version(a: Qr, b: Qr)
    requires
        a.version == b.version,
        grid(&a.data) == blank_spec(a.version as int),
        grid(&b.data) == blank_spec(b.version as int),
    ensures
        grid(&a.data) == grid(&b.data),
{
}

/// The penalty score is a function of the modules alone.
pub proof fn lemma_score_depends_on_modules(a: Qr, b: Qr)
    requires
        grid(&a.data) == grid(&b.data),
    ensures
        penalty_spec(grid(&a.data)) == penalty_spec(grid(&b.data)),
{
}

/// Masking changes only data modules and the format information: every
/// other module keeps its value, whatever the mask.
pub proof fn lemma_mask_keeps_function_patterns(g: Seq<Seq<bool>>, v: int, ec: ECLevel, k: usize, r: int, c: int)
    requires
        1 <= v <= 40,
        is_square(g, width(v)),
        k < 8,
        0 <= r < width(v),
        0 <= c < width(v),
        module_type_spec(v, r, c) != ModuleType::Data,
        !is_format_cell(width(v), r, c),
    ensures
        masked_spec(g, v, ec, k)[r][c] == g[r][c],
{
    reveal(masked_spec);
    let w = width(v);
    let x = xor_data(g, v, k);
    assert(is_square(x, w));
    assert(x[r][c] == g[r][c]);
    let f = format_word(ec, k);
    assert forall|t: int| 0 <= t < 15 implies #[trigger] format_coords_a()[t] != (r, c) by {
        if format_coords_a()[t] == (r, c) {
            assert(is_format_cell(w, r, c));
        }
    }
    assert forall|t: int| 0 <= t < 15 implies #[trigger] format_coords_b(w)[t] != (r, c) by {
        if format_coords_b(w)[t] == (r, c) {
            assert(is_format_cell(w, r, c));
        }
    }
    assert(forall|t: int| 0 <= t < 15 ==> 0 <= (#[trigger] format_coords_a()[t]).0 < w && 0 <= format_coords_a()[t].1 < w);
    assert(forall|t: int| 0 <= t < 15 ==> 0 <= (#[trigger] format_coords_b(w)[t]).0 < w && 0 <= format_coords_b(w)[t].1 < w);
    crate::matrix::lemma_draw_bits_other(x, w, f, format_coords_a(), 15, r, c);
    crate::matrix::lemma_draw_bits_other(draw_bits(x, f, format_coords_a(), 15), w, f, format_coords_b(w), 15, r, c);
}

} // verus!
