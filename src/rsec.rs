//! Arithmetic in GF(256), Reed-Solomon encoding and the BCH code of the
//! format information.
use vstd::prelude::*;

use crate::error::QrError;
use crate::tables::{GF_EXP, GF_LOG};

verus! {

/// Generator polynomial of the BCH(15,5) code of the format information.
pub const QR_FORMAT_GENERATOR: usize = 0x537;

/// Mask applied to the format information after encoding.
pub const QR_FORMAT_MASK: usize = 0b101010000010010;

/// `2^i` in the field, for `0 <= i < 256`.
pub open spec fn exp_of(i: int) -> u8 {
    GF_EXP@[i]
}

/// The discrete logarithm of a non-zero field element.
pub open spec fn log_of(x: u8) -> int {
    GF_LOG@[x as int] as int
}

/// The product of two elements of GF(256).
pub open spec fn gf_mul_spec(x: u8, y: u8) -> u8 {
    if x == 0 || y == 0 {
        0
    } else {
        exp_of((log_of(x) + log_of(y)) % 255)
    }
}

/// The quotient `x / y` of two elements of GF(256), for `y != 0`.
pub open spec fn gf_div_spec(x: u8, y: u8) -> u8 {
    if x == 0 {
        0
    } else {
        exp_of((log_of(x) + 255 - log_of(y)) % 255)
    }
}

/// Adds two elements of GF(256).
pub fn gf_add(x: u8, y: u8) -> (r: u8)
    ensures
        r == x ^ y,
{
    x ^ y
}

/// Subtracts two elements of GF(256); the same as adding them.
pub fn gf_sub(x: u8, y: u8) -> (r: u8)
    ensures
        r == x ^ y,
{
    x ^ y
}

/// Multiplies two elements of GF(256).
pub fn gf_mul(x: u8, y: u8) -> (r: u8)
    ensures
        r == gf_mul_spec(x, y),
{
    if x == 0 || y == 0 {
        0
    } else {
        let lx = GF_LOG[x as usize] as usize;
        let ly = GF_LOG[y as usize] as usize;
        GF_EXP[(lx + ly) % 255]
    }
}

/// Divides `x` by `y` in GF(256).
pub fn gf_div(x: u8, y: u8) -> (r: Result<u8, QrError>)
    ensures
        y == 0 ==> r == Err::<u8, QrError>(QrError::DivByZero),
        y != 0 ==> r == Ok::<u8, QrError>(gf_div_spec(x, y)),
{
    if y == 0 {
        Err(QrError::DivByZero)
    } else if x == 0 {
        Ok(0)
    } else {
        let lx = GF_LOG[x as usize] as usize;
        let ly = GF_LOG[y as usize] as usize;
        Ok(GF_EXP[(lx + 255 - ly) % 255])
    }
}

/// Zero absorbs multiplication.
pub proof fn lemma_gf_mul_zero(x: u8)
    ensures
        gf_mul_spec(x, 0) == 0,
        gf_mul_spec(0, x) == 0,
{
}

/// Multiplication commutes.
pub proof fn lemma_gf_mul_commutes(x: u8, y: u8)
    ensures
        gf_mul_spec(x, y) == gf_mul_spec(y, x),
{
}

/// Every element is its own additive inverse.
pub proof fn lemma_gf_add_self(x: u8)
    ensures
        x ^ x == 0,
{
    assert(x ^ x == 0) by (bit_vector);
}

proof fn lemma_gf_tables()
    ensures
        forall|i: int| 0 <= i < 255 ==> #[trigger] exp_of(i) != 0 && log_of(exp_of(i)) == i,
        forall|x: u8| x != 0 ==> 0 <= #[trigger] log_of(x) < 255 && exp_of(log_of(x)) == x,
{
    assert(forall|i: int| 0 <= i < 255 ==> GF_EXP@[i] != 0 && GF_LOG@[GF_EXP@[i] as int] as int == i);
    assert(forall|x: int| 1 <= x < 256 ==> (GF_LOG@[x] as int) < 255 && GF_EXP@[GF_LOG@[x] as int] as int == x);
    assert forall|x: u8| x != 0 implies 0 <= #[trigger] log_of(x) < 255 && exp_of(log_of(x)) == x by {
        assert(1 <= x as int && (x as int) < 256);
    }
}

/// Dividing a product by one of its non-zero factors gives the other factor.
pub proof fn lemma_gf_div_mul(x: u8, y: u8)
    requires
        y != 0,
    ensures
        gf_div_spec(gf_mul_spec(x, y), y) == x,
{
    lemma_gf_tables();
    if x != 0 {
        let k = (log_of(x) + log_of(y)) % 255;
        assert(0 <= k < 255);
        assert(log_of(exp_of(k)) == k);
        assert((k + 255 - log_of(y)) % 255 == log_of(x)) by {
            let lx = log_of(x);
            let ly = log_of(y);
            assert(0 <= lx < 255 && 0 <= ly < 255);
            if lx + ly < 255 {
                assert(k == lx + ly);
                assert((lx + 255) % 255 == lx);
            } else {
                assert(k == lx + ly - 255);
                assert(k + 255 - ly == lx);
            }
        }
    }
}

/// Term `k` of the product of `a` with the single coefficient `b[j]`.
pub open spec fn conv_term(a: Seq<u8>, b: Seq<u8>, k: int, j: int) -> u8 {
    if 0 <= k - j < a.len() {
        gf_mul_spec(a[k - j], b[j])
    } else {
        0
    }
}

/// Coefficient `k` of the product of `a` with the first `n` coefficients of `b`.
pub open spec fn conv_upto(a: Seq<u8>, b: Seq<u8>, k: int, n: nat) -> u8
    decreases n,
{
    if n == 0 {
        0
    } else {
        conv_upto(a, b, k, (n - 1) as nat) ^ conv_term(a, b, k, n - 1)
    }
}

/// The product of two polynomials over GF(256), coefficients listed from the
/// highest power down (or lowest up: the convolution is the same).
pub open spec fn poly_mul_spec(a: Seq<u8>, b: Seq<u8>) -> Seq<u8> {
    Seq::new((a.len() + b.len() - 1) as nat, |k: int| conv_upto(a, b, k, b.len()))
}

proof fn lemma_xor_zero(x: u8)
    ensures
        x ^ 0 == x,
{
    assert(x ^ 0 == x) by (bit_vector);
}

/// Multiplies two polynomials over GF(256).
pub fn poly_mul(x: &[u8], y: &[u8]) -> (r: Vec<u8>)
    requires
        x@.len() + y@.len() >= 1,
        x@.len() + y@.len() <= usize::MAX,
    ensures
        r@ == poly_mul_spec(x@, y@),
{
    let n: usize = x.len() + y.len() - 1;
    let mut res: Vec<u8> = vec![0u8; n];
    let mut j: usize = 0;
    while j < y.len()
        invariant
            n == x@.len() + y@.len() - 1,
            res@.len() == n,
            j <= y@.len(),
            forall|k: int| 0 <= k < n ==> #[trigger] res@[k] == conv_upto(x@, y@, k, j as nat),
        decreases y@.len() - j,
    {
        let mut i: usize = 0;
        while i < x.len()
            invariant
                n == x@.len() + y@.len() - 1,
                res@.len() == n,
                j < y@.len(),
                i <= x@.len(),
                forall|k: int|
                    0 <= k < n ==> #[trigger] res@[k] == (if j <= k < j + i {
                        conv_upto(x@, y@, k, (j + 1) as nat)
                    } else {
                        conv_upto(x@, y@, k, j as nat)
                    }),
            decreases x@.len() - i,
        {
            let m = gf_mul(x[i], y[j]);
            let old_v = res[i + j];
            res.set(i + j, old_v ^ m);
            i += 1;
        }
        assert forall|k: int| 0 <= k < n implies #[trigger] res@[k] == conv_upto(
            x@,
            y@,
            k,
            (j + 1) as nat,
        ) by {
            if !(j <= k < j + x@.len()) {
                lemma_xor_zero(conv_upto(x@, y@, k, j as nat));
            }
        }
        j += 1;
    }
    assert(res@ =~= poly_mul_spec(x@, y@));
    res
}

/// The Reed-Solomon generator polynomial with `n` parity bytes:
/// the product of `(x - 2^i)` for `i < n`, highest power first.
pub open spec fn gen_poly_spec(n: nat) -> Seq<u8>
    decreases n,
{
    if n == 0 {
        seq![1u8]
    } else {
        poly_mul_spec(gen_poly_spec((n - 1) as nat), seq![1u8, exp_of(n - 1)])
    }
}

proof fn lemma_gen_poly_len(n: nat)
    ensures
        gen_poly_spec(n).len() == n + 1,
    decreases n,
{
    if n > 0 {
        lemma_gen_poly_len((n - 1) as nat);
    }
}

/// Builds the generator polynomial for `num_ec_blocks` parity bytes.
pub fn rs_generator_poly(num_ec_blocks: usize) -> (r: Vec<u8>)
    requires
        num_ec_blocks < 256,
    ensures
        r@ == gen_poly_spec(num_ec_blocks as nat),
        r@.len() == num_ec_blocks + 1,
{
    let mut res: Vec<u8> = vec![1u8];
    let mut i: usize = 0;
    while i < num_ec_blocks
        invariant
            i <= num_ec_blocks < 256,
            res@ == gen_poly_spec(i as nat),
        decreases num_ec_blocks - i,
    {
        proof {
            lemma_gen_poly_len(i as nat);
        }
        let curr: Vec<u8> = vec![1u8, GF_EXP[i]];
        assert(curr@ =~= seq![1u8, exp_of(i as int)]);
        res = poly_mul(res.as_slice(), curr.as_slice());
        i += 1;
    }
    proof {
        lemma_gen_poly_len(i as nat);
    }
    res
}

/// One step of the long division by the generator `g`: the coefficient at
/// position `i` is cancelled by adding `buf[i] * g` shifted to `i`.
pub open spec fn rs_step(buf: Seq<u8>, g: Seq<u8>, i: int) -> Seq<u8> {
    let coef = buf[i];
    if coef == 0 {
        buf
    } else {
        Seq::new(
            buf.len(),
            |k: int|
                if i < k && k - i < g.len() {
                    buf[k] ^ gf_mul_spec(g[k - i], coef)
                } else {
                    buf[k]
                },
        )
    }
}

/// The division buffer after the first `i` steps.
pub open spec fn rs_run(buf: Seq<u8>, g: Seq<u8>, i: nat) -> Seq<u8>
    decreases i,
{
    if i == 0 {
        buf
    } else {
        rs_step(rs_run(buf, g, (i - 1) as nat), g, i - 1)
    }
}

/// The `n` parity bytes of `data`: the remainder of `data * x^n` divided by
/// the generator polynomial.
pub open spec fn rs_parity_spec(data: Seq<u8>, n: nat) -> Seq<u8> {
    let buf = data + Seq::new(n, |k: int| 0u8);
    rs_run(buf, gen_poly_spec(n), data.len()).subrange(data.len() as int, (data.len() + n) as int)
}

pub proof fn lemma_rs_parity_len(data: Seq<u8>, n: nat)
    ensures
        rs_parity_spec(data, n).len() == n,
{
    lemma_rs_run_len(data + Seq::new(n, |k: int| 0u8), gen_poly_spec(n), data.len());
}

proof fn lemma_rs_run_len(buf: Seq<u8>, g: Seq<u8>, i: nat)
    ensures
        rs_run(buf, g, i).len() == buf.len(),
    decreases i,
{
    if i > 0 {
        lemma_rs_run_len(buf, g, (i - 1) as nat);
    }
}

/// Appends `num_ec_blocks` Reed-Solomon parity bytes to `data`.
pub fn rs_encode(data: &[u8], num_ec_blocks: usize) -> (r: Result<Vec<u8>, QrError>)
    ensures
        data@.len() + num_ec_blocks > 255 ==> r == Err::<Vec<u8>, QrError>(QrError::MessageTooLong),
        data@.len() + num_ec_blocks <= 255 ==> r.is_ok() && r.unwrap()@ == data@ + rs_parity_spec(
            data@,
            num_ec_blocks as nat,
        ),
{
    if data.len() > 255 || num_ec_blocks > 255 - data.len() {
        return Err(QrError::MessageTooLong);
    }
    let gen_poly = rs_generator_poly(num_ec_blocks);
    let ghost g = gen_poly@;
    let len = data.len();
    let mut res: Vec<u8> = Vec::new();
    let mut k: usize = 0;
    while k < len
        invariant
            k <= len == data@.len(),
            len + num_ec_blocks <= 255,
            res@ == data@.subrange(0, k as int),
        decreases len - k,
    {
        res.push(data[k]);
        k += 1;
    }
    while k < len + num_ec_blocks
        invariant
            len + num_ec_blocks <= 255,
            len <= k <= len + num_ec_blocks,
            len == data@.len(),
            res@ == (data@ + Seq::new(num_ec_blocks as nat, |t: int| 0u8)).subrange(0, k as int),
        decreases len + num_ec_blocks - k,
    {
        proof {
            assert(res@.push(0u8) =~= (data@ + Seq::new(num_ec_blocks as nat, |t: int| 0u8)).subrange(0, k + 1));
        }
        res.push(0u8);
        k += 1;
    }
    let ghost buf0 = data@ + Seq::new(num_ec_blocks as nat, |t: int| 0u8);
    assert(res@ =~= buf0);
    let mut i: usize = 0;
    while i < len
        invariant
            i <= len == data@.len(),
            len + num_ec_blocks <= 255,
            g == gen_poly@,
            g.len() == num_ec_blocks + 1,
            buf0.len() == len + num_ec_blocks,
            res@ == rs_run(buf0, g, i as nat),
        decreases len - i,
    {
        proof {
            lemma_rs_run_len(buf0, g, i as nat);
        }
        let ghost prev = res@;
        let coef = res[i];
        if coef != 0 {
            let mut j: usize = 1;
            while j < gen_poly.len()
                invariant
                    1 <= j <= gen_poly@.len(),
                    g == gen_poly@,
                    g.len() == num_ec_blocks + 1,
                    i < len,
                    len + num_ec_blocks <= 255,
                    prev.len() == len + num_ec_blocks,
                    coef == prev[i as int],
                    res@.len() == prev.len(),
                    forall|t: int|
                        0 <= t < prev.len() ==> #[trigger] res@[t] == (if i < t < i + j {
                            prev[t] ^ gf_mul_spec(g[t - i], coef)
                        } else {
                            prev[t]
                        }),
                decreases gen_poly@.len() - j,
            {
                let m = gf_mul(gen_poly[j], coef);
                let old_v = res[i + j];
                res.set(i + j, old_v ^ m);
                j += 1;
            }
            assert(res@ =~= rs_step(prev, g, i as int));
        } else {
            assert(res@ =~= rs_step(prev, g, i as int));
        }
        i += 1;
    }
    proof {
        lemma_rs_run_len(buf0, g, len as nat);
    }
    let ghost fin = res@;
    let mut t: usize = 0;
    while t < len
        invariant
            t <= len == data@.len(),
            fin.len() == len + num_ec_blocks,
            res@.len() == fin.len(),
            forall|q: int| 0 <= q < t ==> #[trigger] res@[q] == data@[q],
            forall|q: int| t <= q < fin.len() ==> #[trigger] res@[q] == fin[q],
        decreases len - t,
    {
        res.set(t, data[t]);
        t += 1;
    }
    assert(res@ =~= data@ + rs_parity_spec(data@, num_ec_blocks as nat));
    Ok(res)
}

/// Reduces the five payload bits above bit 10 of `res`, from bit `i + 9`
/// down to bit 10, by the format generator.
pub open spec fn format_reduce(res: usize, i: nat) -> usize
    decreases i,
{
    if i == 0 {
        res
    } else {
        let b = (i - 1) as usize;
        let next = if res & (1usize << (b + 10)) != 0 {
            res ^ (QR_FORMAT_GENERATOR << b)
        } else {
            res
        };
        format_reduce(next, (i - 1) as nat)
    }
}

/// The BCH(15,5) code word of a five-bit format payload, before masking.
pub open spec fn format_encode_spec(fmt: usize) -> usize {
    (fmt << 10usize) | format_reduce(fmt << 10usize, 5)
}

/// The BCH check bits of `fmt`: what is left of it after reducing bits
/// 14 to 10 by the generator 0x537.
pub fn qr_format_check(fmt: usize) -> (r: usize)
    ensures
        r == format_reduce(fmt, 5),
{
    let mut res = fmt;
    let mut i: usize = 5;
    while i > 0
        invariant
            i <= 5,
            format_reduce(res, i as nat) == format_reduce(fmt, 5),
        decreases i,
    {
        i -= 1;
        if res & (1usize << (i + 10)) != 0 {
            res = res ^ (QR_FORMAT_GENERATOR << i);
        }
    }
    res
}

/// Encodes a five-bit format payload `(ec << 3) | mask` with its check bits.
pub fn qr_format_encode(fmt: usize) -> (r: usize)
    requires
        fmt <= 0b11111,
    ensures
        r == format_encode_spec(fmt),
{
    (fmt << 10usize) | qr_format_check(fmt << 10usize)
}

/// Encodes a format payload and applies the fixed format mask.
pub fn qr_format_encode_masked(fmt: usize) -> (r: usize)
    requires
        fmt <= 0b11111,
    ensures
        r == format_encode_spec(fmt) ^ QR_FORMAT_MASK,
{
    qr_format_encode(fmt) ^ QR_FORMAT_MASK
}

} // verus!
