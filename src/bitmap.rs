//! Serialisation of a symbol as an uncompressed 24-bit BMP image.
use vstd::prelude::*;

use crate::matrix::{grid, is_square};
use crate::qr::{width, Qr};

verus! {

/// Length of the file header and the information header together.
pub const BMP_HEADER_LEN: usize = 54;

/// Pixels per module.
pub const SCALE: usize = 4;

/// The four little-endian bytes of `x`.
pub open spec fn le32(x: nat) -> Seq<u8> {
    seq![(x % 256) as u8, (x / 256 % 256) as u8, (x / 65536 % 256) as u8, (x / 16777216 % 256) as u8]
}

/// The pixels of one row: three bytes per module, black for dark and white
/// for light, then zero bytes up to a multiple of four.
pub open spec fn row_pixels(row: Seq<bool>, w: nat) -> Seq<u8> {
    Seq::new(3 * w + w % 4, |i: int| if i < 3 * w && !row[i / 3] { 255u8 } else { 0u8 })
}

/// The rows of the image bottom-up: the last `k` rows of `g`, last row first.
pub open spec fn pixel_rows(g: Seq<Seq<bool>>, w: nat, k: nat) -> Seq<u8>
    decreases k,
{
    if k == 0 {
        Seq::empty()
    } else {
        pixel_rows(g, w, (k - 1) as nat) + row_pixels(g[g.len() - k], w)
    }
}

/// The two headers of an image `w` pixels wide and `h` high.
pub open spec fn bmp_header(w: nat, h: nat) -> Seq<u8> {
    let pixels = h * (3 * w + w % 4);
    seq![0x42u8, 0x4Du8] + le32(54 + pixels) + seq![0u8, 0, 0, 0] + seq![0x36u8, 0, 0, 0] + seq![0x28u8, 0, 0, 0]
        + le32(w) + le32(h) + seq![1u8, 0] + seq![0x18u8, 0] + seq![0u8, 0, 0, 0] + le32(pixels)
        + seq![0x23u8, 0x2E, 0, 0] + seq![0x23u8, 0x2E, 0, 0] + seq![0u8, 0, 0, 0] + seq![0u8, 0, 0, 0]
}

/// The BMP file of a rectangular grid of pixels.
pub open spec fn bmp_spec(g: Seq<Seq<bool>>) -> Seq<u8> {
    let w = g[0].len();
    bmp_header(w, g.len()) + pixel_rows(g, w, g.len())
}

/// The rows of a slice of rows.
pub open spec fn rows_view(rows: Seq<Vec<bool>>) -> Seq<Seq<bool>> {
    rows.map_values(|row: Vec<bool>| row@)
}

/// Whether the grid is non-empty and every row has the width of the first.
pub open spec fn is_rectangle(g: Seq<Seq<bool>>) -> bool {
    g.len() > 0 && g[0].len() > 0 && forall|i: int| 0 <= i < g.len() ==> (#[trigger] g[i]).len() == g[0].len()
}

/// Whether the file of such a grid is at most 4 GiB, so that its size fits
/// the header.
pub open spec fn fits_bmp(g: Seq<Seq<bool>>) -> bool {
    g.len() <= 65535 && g[0].len() <= 65535 && 54 + g.len() * (3 * g[0].len() + g[0].len() % 4) <= 0xFFFF_FFFF
}

fn push_le32(res: &mut Vec<u8>, x: u32)
    ensures
        final(res)@ == old(res)@ + le32(x as nat),
{
    res.push((x % 256) as u8);
    res.push((x / 256 % 256) as u8);
    res.push((x / 65536 % 256) as u8);
    res.push((x / 16777216 % 256) as u8);
    assert(final(res)@ =~= old(res)@ + le32(x as nat));
}

fn push_bytes4(res: &mut Vec<u8>, a: u8, b: u8, c: u8, d: u8)
    ensures
        final(res)@ == old(res)@ + seq![a, b, c, d],
{
    res.push(a);
    res.push(b);
    res.push(c);
    res.push(d);
    assert(final(res)@ =~= old(res)@ + seq![a, b, c, d]);
}

/// The BMP file of a grid of pixels, `true` for black; none when the grid is
/// empty, not rectangular, or too large for the format.
pub fn make_bitmap(data: &[Vec<bool>]) -> (r: Option<Vec<u8>>)
    ensures
        r.is_some() == (is_rectangle(rows_view(data@)) && fits_bmp(
            rows_view(data@),
        )),
        r.is_some() ==> r.unwrap()@ == bmp_spec(rows_view(data@)),
{
    let ghost g = rows_view(data@);
    if data.len() == 0 {
        return None;
    }
    assert(g[0] == data@[0]@);
    if data[0].len() == 0 {
        return None;
    }
    let height = data.len();
    let width = data[0].len();
    let mut i: usize = 0;
    while i < height
        invariant
            g == rows_view(data@),
            height == data@.len() == g.len(),
            width == g[0].len(),
            i <= height,
            forall|a: int| 0 <= a < i ==> (#[trigger] g[a]).len() == width,
        decreases height - i,
    {
        assert(g[i as int] == data@[i as int]@);
        if data[i].len() != width {
            return None;
        }
        i += 1;
    }
    if height > 65535 || width > 65535 {
        return None;
    }
    let row_len: u64 = (3 * width + width % 4) as u64;
    proof {
        assert(height * row_len <= 65535 * (3 * 65535 + 3)) by (nonlinear_arith)
            requires
                height <= 65535,
                row_len <= 3 * 65535 + 3,
        ;
    }
    let pixel_length: u64 = height as u64 * row_len;
    if BMP_HEADER_LEN as u64 + pixel_length > 0xFFFF_FFFF {
        return None;
    }
    let mut res: Vec<u8> = Vec::new();
    push_bytes4(&mut res, 0x42, 0x4D, 0, 0);
    let ghost start = res@;
    res.pop();
    res.pop();
    assert(res@ =~= seq![0x42u8, 0x4Du8]);
    push_le32(&mut res, (BMP_HEADER_LEN as u64 + pixel_length) as u32);
    push_bytes4(&mut res, 0, 0, 0, 0);
    push_bytes4(&mut res, 0x36, 0, 0, 0);
    push_bytes4(&mut res, 0x28, 0, 0, 0);
    push_le32(&mut res, width as u32);
    push_le32(&mut res, height as u32);
    push_bytes4(&mut res, 1, 0, 0x18, 0);
    push_bytes4(&mut res, 0, 0, 0, 0);
    push_le32(&mut res, pixel_length as u32);
    push_bytes4(&mut res, 0x23, 0x2E, 0, 0);
    push_bytes4(&mut res, 0x23, 0x2E, 0, 0);
    push_bytes4(&mut res, 0, 0, 0, 0);
    push_bytes4(&mut res, 0, 0, 0, 0);
    let ghost header = bmp_header(width as nat, height as nat);
    assert(res@ =~= header);
    let mut k: usize = 0;
    while k < height
        invariant
            g == rows_view(data@),
            height == data@.len() == g.len(),
            width == g[0].len(),
            forall|a: int| 0 <= a < height ==> (#[trigger] g[a]).len() == width,
            k <= height,
            res@ == header + pixel_rows(g, width as nat, k as nat),
        decreases height - k,
    {
        let row = &data[height - 1 - k];
        assert(g[height - 1 - k] == data@[height - 1 - k]@);
        assert(row@ == g[height - 1 - k]);
        let ghost before = res@;
        let mut j: usize = 0;
        while j < width
            invariant
                row@ == g[height - 1 - k],
                row@.len() == width,
                j <= width,
                res@ == before + row_pixels(row@, width as nat).subrange(0, 3 * j),
            decreases width - j,
        {
            let v: u8 = if row[j] {
                0
            } else {
                255
            };
            res.push(v);
            res.push(v);
            res.push(v);
            j += 1;
            assert(res@ =~= before + row_pixels(row@, width as nat).subrange(0, 3 * j));
        }
        let mut p: usize = 0;
        while p < width % 4
            invariant
                row@.len() == width,
                p <= width % 4,
                res@ == before + row_pixels(row@, width as nat).subrange(0, 3 * width + p),
            decreases width % 4 - p,
        {
            res.push(0);
            p += 1;
            assert(res@ =~= before + row_pixels(row@, width as nat).subrange(0, 3 * width + p));
        }
        assert(row_pixels(row@, width as nat).subrange(0, 3 * width + width % 4) =~= row_pixels(row@, width as nat));
        k += 1;
        assert(res@ =~= header + pixel_rows(g, width as nat, k as nat));
    }
    Some(res)
}

/// The symbol enlarged `SCALE` times inside a quiet zone of four modules.
pub open spec fn scaled_spec(g: Seq<Seq<bool>>, n: int) -> Seq<Seq<bool>> {
    let size = (n + 8) * 4;
    Seq::new(
        size as nat,
        |i: int|
            Seq::new(
                size as nat,
                |j: int| if 16 <= i < (n + 4) * 4 && 16 <= j < (n + 4) * 4 { g[i / 4 - 4][j / 4 - 4] } else { false },
            ),
    )
}

/// The BMP file of a symbol, four pixels per module, with a quiet zone of
/// four light modules.
pub fn qr_to_bitmap(qr: &Qr) -> (r: Option<Vec<u8>>)
    requires
        qr.wf(),
    ensures
        r.is_some(),
        r.unwrap()@ == bmp_spec(scaled_spec(grid(&qr.data), width(qr.version as int))),
{
    let ghost g = grid(&qr.data);
    let n = qr.data.len();
    let size = (n + 8) * SCALE;
    let ghost s = scaled_spec(g, n as int);
    let mut res: Vec<Vec<bool>> = Vec::new();
    let mut i: usize = 0;
    while i < size
        invariant
            qr.wf(),
            g == grid(&qr.data),
            n == qr.data@.len() == width(qr.version as int),
            size == (n + 8) * 4,
            s == scaled_spec(g, n as int),
            i <= size,
            res@.len() == i,
            forall|a: int| 0 <= a < i ==> (#[trigger] res@[a])@ == s[a],
        decreases size - i,
    {
        let mut row: Vec<bool> = Vec::new();
        let mut j: usize = 0;
        while j < size
            invariant
                qr.wf(),
                g == grid(&qr.data),
                n == qr.data@.len() == width(qr.version as int),
                size == (n + 8) * 4,
                s == scaled_spec(g, n as int),
                i < size,
                j <= size,
                row@ == s[i as int].subrange(0, j as int),
            decreases size - j,
        {
            let inside = 16 <= i && i < (n + 4) * 4 && 16 <= j && j < (n + 4) * 4;
            let v = if inside {
                assert(g[i / 4 - 4] == qr.data@[i / 4 - 4]@);
                qr.data[i / SCALE - 4][j / SCALE - 4]
            } else {
                false
            };
            row.push(v);
            j += 1;
            assert(row@ =~= s[i as int].subrange(0, j as int));
        }
        assert(row@ =~= s[i as int]);
        res.push(row);
        i += 1;
    }
    let ghost rg = rows_view(res@);
    assert(rg =~= s);
    proof {
        assert(size <= 185 * 4);
        assert(54 + size * (3 * size + size % 4) <= 0xFFFF_FFFF) by (nonlinear_arith)
            requires
                size <= 740,
        ;
    }
    make_bitmap(res.as_slice())
}

} // verus!
