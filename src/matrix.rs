//! A square grid of modules and the drawing operations on it.
use vstd::prelude::*;

verus! {

/// The modules of a grid, row by row; `true` is dark.
pub open spec fn grid(m: &Vec<Vec<bool>>) -> Seq<Seq<bool>> {
    m@.map_values(|row: Vec<bool>| row@)
}

/// A `w` by `w` grid.
pub open spec fn is_square(g: Seq<Seq<bool>>, w: int) -> bool {
    g.len() == w && forall|i: int| 0 <= i < w ==> (#[trigger] g[i]).len() == w
}

/// `g` with module `(r, c)` set to `val`.
pub open spec fn set_cell(g: Seq<Seq<bool>>, r: int, c: int, val: bool) -> Seq<Seq<bool>> {
    g.update(r, g[r].update(c, val))
}

/// `g` with the rectangle of rows `r0..=r1` and columns `c0..=c1` set to `val`.
pub open spec fn fill_rect(g: Seq<Seq<bool>>, val: bool, r0: int, c0: int, r1: int, c1: int) -> Seq<
    Seq<bool>,
> {
    Seq::new(
        g.len(),
        |i: int|
            Seq::new(
                g[i].len(),
                |j: int| if r0 <= i <= r1 && c0 <= j <= c1 { val } else { g[i][j] },
            ),
    )
}

/// A `w` by `w` grid of light modules.
pub open spec fn light_grid(w: int) -> Seq<Seq<bool>> {
    Seq::new(w as nat, |i: int| Seq::new(w as nat, |j: int| false))
}

/// Bit `i` of `num`.
pub open spec fn bit_of(num: usize, i: int) -> bool {
    (num >> (i as usize)) & 1usize == 1usize
}

/// `g` after writing the bits of `num`, most significant first, at the first
/// `k` of the coordinates; coordinate `t` gets bit `len - 1 - t`.
pub open spec fn draw_bits(g: Seq<Seq<bool>>, num: usize, coords: Seq<(int, int)>, k: nat) -> Seq<
    Seq<bool>,
>
    decreases k,
{
    if k == 0 {
        g
    } else {
        let p = coords[k - 1];
        set_cell(draw_bits(g, num, coords, (k - 1) as nat), p.0, p.1, bit_of(num, coords.len() - k))
    }
}

pub proof fn lemma_draw_bits_square(g: Seq<Seq<bool>>, w: int, num: usize, coords: Seq<(int, int)>, k: nat)
    requires
        is_square(g, w),
        k <= coords.len(),
        forall|t: int| 0 <= t < coords.len() ==> 0 <= (#[trigger] coords[t]).0 < w && 0 <= coords[t].1 < w,
    ensures
        is_square(draw_bits(g, num, coords, k), w),
    decreases k,
{
    if k > 0 {
        lemma_draw_bits_square(g, w, num, coords, (k - 1) as nat);
        let p = coords[k - 1];
        assert(0 <= p.0 < w && 0 <= p.1 < w);
    }
}

/// Writing bits leaves every module outside the coordinates as it was.
pub proof fn lemma_draw_bits_other(g: Seq<Seq<bool>>, w: int, num: usize, coords: Seq<(int, int)>, k: nat, r: int, c: int)
    requires
        is_square(g, w),
        k <= coords.len(),
        forall|t: int| 0 <= t < coords.len() ==> 0 <= (#[trigger] coords[t]).0 < w && 0 <= coords[t].1 < w,
        0 <= r < w,
        0 <= c < w,
        forall|t: int| 0 <= t < k ==> #[trigger] coords[t] != (r, c),
    ensures
        draw_bits(g, num, coords, k)[r][c] == g[r][c],
        is_square(draw_bits(g, num, coords, k), w),
    decreases k,
{
    lemma_draw_bits_square(g, w, num, coords, k);
    if k > 0 {
        lemma_draw_bits_other(g, w, num, coords, (k - 1) as nat, r, c);
        assert(coords[k - 1] != (r, c));
    }
}

/// A `w` by `w` grid of light modules.
pub fn new_grid(w: usize) -> (r: Vec<Vec<bool>>)
    ensures
        grid(&r) == light_grid(w as int),
        r@.len() == w,
{
    let mut res: Vec<Vec<bool>> = Vec::new();
    let mut i: usize = 0;
    while i < w
        invariant
            i <= w,
            res@.len() == i,
            forall|a: int| 0 <= a < i ==> (#[trigger] res@[a])@ == Seq::new(w as nat, |j: int| false),
        decreases w - i,
    {
        let row: Vec<bool> = vec![false; w];
        assert(row@ =~= Seq::new(w as nat, |j: int| false));
        res.push(row);
        i += 1;
    }
    assert(grid(&res) =~= light_grid(w as int));
    res
}

/// Sets one module.
pub fn set_module(m: &mut Vec<Vec<bool>>, r: usize, c: usize, val: bool)
    requires
        r < old(m)@.len(),
        c < old(m)@[r as int]@.len(),
    ensures
        grid(final(m)) == set_cell(grid(old(m)), r as int, c as int, val),
        final(m)@.len() == old(m)@.len(),
{
    m[r].set(c, val);
    assert(grid(m) =~= set_cell(grid(old(m)), r as int, c as int, val));
}

/// Sets every module of rows `top_left.0..=bottom_right.0` and columns
/// `top_left.1..=bottom_right.1` that lies in the grid to `val`.
pub fn draw_square(
    data: &mut Vec<Vec<bool>>,
    val: bool,
    top_left: (usize, usize),
    bottom_right: (usize, usize),
)
    ensures
        grid(final(data)) == fill_rect(
            grid(old(data)),
            val,
            top_left.0 as int,
            top_left.1 as int,
            bottom_right.0 as int,
            bottom_right.1 as int,
        ),
        final(data)@.len() == old(data)@.len(),
        forall|w: int| is_square(grid(old(data)), w) ==> is_square(grid(final(data)), w),
{
    let ghost g0 = grid(data);
    let ghost r0 = top_left.0 as int;
    let ghost c0 = top_left.1 as int;
    let ghost c1 = bottom_right.1 as int;
    let h = data.len();
    let mut i: usize = top_left.0;
    assert(grid(data) =~~= fill_rect(g0, val, r0, c0, r0 - 1, c1));
    while i <= bottom_right.0 && i < h
        invariant
            top_left.0 <= i,
            h == g0.len() == data@.len(),
            r0 == top_left.0,
            c0 == top_left.1,
            c1 == bottom_right.1,
            g0 == grid(old(data)),
            i == top_left.0 || i <= bottom_right.0 + 1,
            grid(data) == fill_rect(g0, val, r0, c0, i - 1, c1),
        decreases h - i,
    {
        let n = data[i].len();
        assert(n == g0[i as int].len()) by {
            assert(grid(data)[i as int].len() == g0[i as int].len());
        }
        let mut j: usize = top_left.1;
        assert(grid(data) =~~= fill_rect(fill_rect(g0, val, r0, c0, i - 1, c1), val, i as int, c0, i as int, c0 - 1));
        while j <= bottom_right.1 && j < n
            invariant
                top_left.0 <= i < h,
                top_left.1 <= j,
                h == g0.len() == data@.len(),
                n == g0[i as int].len(),
                r0 == top_left.0,
                c0 == top_left.1,
                c1 == bottom_right.1,
                i <= bottom_right.0,
                j == top_left.1 || j <= bottom_right.1 + 1,
                grid(data) == fill_rect(fill_rect(g0, val, r0, c0, i - 1, c1), val, i as int, c0, i as int, j - 1),
            decreases n - j,
        {
            assert(grid(data)[i as int].len() == n);
            set_module(data, i, j, val);
            j += 1;
            assert(grid(data) =~~= fill_rect(fill_rect(g0, val, r0, c0, i - 1, c1), val, i as int, c0, i as int, j - 1));
        }
        assert(grid(data) =~~= fill_rect(g0, val, r0, c0, i as int, c1));
        i += 1;
    }
    assert(grid(data) =~~= fill_rect(g0, val, r0, c0, bottom_right.0 as int, c1));
}

/// Writes the bits of `num`, most significant first, at `coords`.
pub fn draw_number(data: &mut Vec<Vec<bool>>, num: usize, coords: &Vec<(usize, usize)>)
    requires
        is_square(grid(old(data)), old(data)@.len() as int),
        coords@.len() <= 32,
        forall|t: int| 0 <= t < coords@.len() ==> (#[trigger] coords@[t]).0 < old(data)@.len() && coords@[t].1 < old(data)@.len(),
    ensures
        grid(final(data)) == draw_bits(grid(old(data)), num, coords_view(coords@), coords@.len() as nat),
        is_square(grid(final(data)), old(data)@.len() as int),
{
    let ghost g0 = grid(data);
    let w = data.len();
    let n = coords.len();
    let mut i: usize = 0;
    while i < n
        invariant
            i <= n == coords@.len() <= 32,
            data@.len() == w,
            w == g0.len(),
            is_square(g0, w as int),
            forall|t: int| 0 <= t < coords@.len() ==> (#[trigger] coords@[t]).0 < w && coords@[t].1 < w,
            grid(data) == draw_bits(g0, num, coords_view(coords@), i as nat),
            is_square(grid(data), w as int),
        decreases n - i,
    {
        let (r, c) = coords[i];
        assert(grid(data)[r as int].len() == w);
        let bit = (num >> (n - i - 1)) & 1 == 1;
        set_module(data, r, c, bit);
        i += 1;
        proof {
            let cv = coords_view(coords@);
            assert(cv[i - 1] == (r as int, c as int));
            assert(bit == bit_of(num, cv.len() - i));
        }
    }
}

/// Coordinates as mathematical integers.
pub open spec fn coords_view(c: Seq<(usize, usize)>) -> Seq<(int, int)> {
    c.map_values(|p: (usize, usize)| (p.0 as int, p.1 as int))
}

} // verus!
