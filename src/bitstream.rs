//! An append-only sequence of bits, packed most significant bit first.
use vstd::arithmetic::div_mod::{lemma_div_denominator, lemma_mod_breakdown};
use vstd::arithmetic::power2::{lemma2_to64, lemma_pow2_pos, lemma_pow2_unfold, pow2};
use vstd::bits::lemma_u32_shr_is_div;
use vstd::prelude::*;

use crate::error::QrError;

verus! {

/// The `w` low bits of `v`, most significant first.
pub open spec fn uint_bits(v: nat, w: nat) -> Seq<bool>
    decreases w,
{
    if w == 0 {
        Seq::empty()
    } else {
        uint_bits(v / 2, (w - 1) as nat).push(v % 2 == 1)
    }
}

/// The number whose binary digits, most significant first, are `bits`.
pub open spec fn read_bits(bits: Seq<bool>) -> nat
    decreases bits.len(),
{
    if bits.len() == 0 {
        0
    } else {
        read_bits(bits.drop_last()) * 2 + if bits.last() {
            1nat
        } else {
            0nat
        }
    }
}

/// The bits of a byte string, eight per byte, most significant first.
pub open spec fn bytes_bits(bs: Seq<u8>) -> Seq<bool>
    decreases bs.len(),
{
    if bs.len() == 0 {
        Seq::empty()
    } else {
        bytes_bits(bs.drop_last()) + uint_bits(bs.last() as nat, 8)
    }
}

/// Bit `i` of `bits`, reading past the end as zero.
pub open spec fn bit_or_zero(bits: Seq<bool>, i: int) -> bool {
    0 <= i < bits.len() && bits[i]
}

/// The value of the first `k` bits from `start`, zero past the end.
pub open spec fn chunk_value(bits: Seq<bool>, start: int, k: nat) -> nat
    decreases k,
{
    if k == 0 {
        0
    } else {
        chunk_value(bits, start, (k - 1) as nat) * 2 + if bit_or_zero(bits, start + k - 1) {
            1nat
        } else {
            0nat
        }
    }
}

/// The bytes of a bit sequence: byte `b` holds bits `8b .. 8b + 8`, the last
/// byte padded with zero bits.
pub open spec fn pack_bits(bits: Seq<bool>) -> Seq<u8> {
    Seq::new(
        ((bits.len() + 7) / 8) as nat,
        |b: int| chunk_value(bits, 8 * b, 8) as u8,
    )
}

pub proof fn lemma_uint_bits_zero(w: nat)
    ensures
        uint_bits(0, w) == Seq::new(w, |i: int| false),
    decreases w,
{
    if w > 0 {
        lemma_uint_bits_zero((w - 1) as nat);
        assert(uint_bits(0, w) =~= Seq::new(w, |i: int| false));
    } else {
        assert(uint_bits(0, w) =~= Seq::new(w, |i: int| false));
    }
}

pub proof fn lemma_uint_bits_len(v: nat, w: nat)
    ensures
        uint_bits(v, w).len() == w,
    decreases w,
{
    if w > 0 {
        lemma_uint_bits_len(v / 2, (w - 1) as nat);
    }
}

/// Reading back the bits pushed for `v` in width `w` gives `v` modulo `2^w`.
pub proof fn lemma_bits_round_trip(v: nat, w: nat)
    ensures
        read_bits(uint_bits(v, w)) == v % pow2(w),
    decreases w,
{
    if w == 0 {
        lemma2_to64();
    } else {
        lemma_bits_round_trip(v / 2, (w - 1) as nat);
        let s = uint_bits(v, w);
        assert(s.drop_last() =~= uint_bits(v / 2, (w - 1) as nat));
        lemma_pow2_unfold(w);
        lemma_pow2_pos((w - 1) as nat);
        lemma_mod_breakdown(v as int, 2, pow2((w - 1) as nat) as int);
    }
}

proof fn lemma_chunk_value_bound(bits: Seq<bool>, start: int, k: nat)
    ensures
        chunk_value(bits, start, k) < pow2(k),
    decreases k,
{
    if k == 0 {
        lemma2_to64();
    } else {
        lemma_chunk_value_bound(bits, start, (k - 1) as nat);
        lemma_pow2_unfold(k);
    }
}

proof fn lemma_bytes_bits_len(bs: Seq<u8>)
    ensures
        bytes_bits(bs).len() == 8 * bs.len(),
    decreases bs.len(),
{
    if bs.len() > 0 {
        lemma_bytes_bits_len(bs.drop_last());
        lemma_uint_bits_len(bs.last() as nat, 8);
    }
}

/// A growing sequence of bits.
#[derive(Debug)]
pub struct Bitstream {
    data: Vec<bool>,
}

impl View for Bitstream {
    type V = Seq<bool>;

    closed spec fn view(&self) -> Seq<bool> {
        self.data@
    }
}

impl Bitstream {
    /// An empty bitstream.
    pub fn new() -> (r: Self)
        ensures
            r@ == Seq::<bool>::empty(),
    {
        Bitstream { data: Vec::new() }
    }

    /// The bits of `b`, eight per byte, most significant first.
    pub fn from_bytes(b: &[u8]) -> (r: Self)
        ensures
            r@ == bytes_bits(b@),
    {
        let mut res = Self::new();
        res.push_bytes(b);
        assert(res@ =~= bytes_bits(b@));
        res
    }

    /// Appends one bit.
    pub fn push(&mut self, data: bool)
        ensures
            final(self)@ == old(self)@.push(data),
    {
        self.data.push(data);
    }

    /// Appends the `len` low bits of `data`, most significant first.
    fn push_low_bits(&mut self, data: u32, len: u8)
        requires
            len <= 32,
        ensures
            final(self)@ == old(self)@ + uint_bits(data as nat, len as nat),
    {
        let ghost start = self@;
        let mut i: u8 = len;
        proof {
            lemma_pow2_pos(len as nat);
        }
        assert(self@ =~= start + uint_bits(data as nat / pow2(i as nat), (len - i) as nat));
        while i > 0
            invariant
                i <= len <= 32,
                self@ == start + uint_bits(data as nat / pow2(i as nat), (len - i) as nat),
            decreases i,
        {
            i -= 1;
            let bit = (data >> i) & 1 == 1;
            proof {
                lemma_u32_shr_is_div(data, i as u32);
                let x = data >> (i as u32);
                assert(x & 1 == 1 <==> x % 2 == 1) by (bit_vector);
                lemma_pow2_unfold((i + 1) as nat);
                lemma_pow2_pos(i as nat);
                lemma_div_denominator(data as int, pow2(i as nat) as int, 2);
                let q = data as nat / pow2(i as nat);
                assert(uint_bits(q, (len - i) as nat) == uint_bits(q / 2, (len - i - 1) as nat).push(
                    q % 2 == 1,
                ));
            }
            self.data.push(bit);
            assert(self@ =~= start + uint_bits(data as nat / pow2(i as nat), (len - i) as nat));
        }
        proof {
            lemma2_to64();
        }
    }

    /// Appends the `len` low bits of a byte; fails when `len > 8`.
    pub fn push_u8(&mut self, data: u8, len: u8) -> (r: Result<(), QrError>)
        ensures
            len > 8 ==> r == Err::<(), QrError>(QrError::WidthExceeded) && final(self)@ == old(self)@,
            len <= 8 ==> r.is_ok() && final(self)@ == old(self)@ + uint_bits(data as nat, len as nat),
    {
        if len > 8 {
            return Err(QrError::WidthExceeded);
        }
        self.push_low_bits(data as u32, len);
        Ok(())
    }

    /// Appends the `len` low bits of a 16-bit value; fails when `len > 16`.
    pub fn push_u16(&mut self, data: u16, len: u8) -> (r: Result<(), QrError>)
        ensures
            len > 16 ==> r == Err::<(), QrError>(QrError::WidthExceeded) && final(self)@ == old(
                self,
            )@,
            len <= 16 ==> r.is_ok() && final(self)@ == old(self)@ + uint_bits(data as nat, len as nat),
    {
        if len > 16 {
            return Err(QrError::WidthExceeded);
        }
        self.push_low_bits(data as u32, len);
        Ok(())
    }

    /// Appends the `len` low bits of a 32-bit value; fails when `len > 32`.
    pub fn push_u32(&mut self, data: u32, len: u8) -> (r: Result<(), QrError>)
        ensures
            len > 32 ==> r == Err::<(), QrError>(QrError::WidthExceeded) && final(self)@ == old(
                self,
            )@,
            len <= 32 ==> r.is_ok() && final(self)@ == old(self)@ + uint_bits(data as nat, len as nat),
    {
        if len > 32 {
            return Err(QrError::WidthExceeded);
        }
        self.push_low_bits(data, len);
        Ok(())
    }

    /// Appends every byte of `data` as eight bits.
    pub fn push_bytes(&mut self, data: &[u8])
        ensures
            final(self)@ == old(self)@ + bytes_bits(data@),
    {
        let ghost start = self@;
        let mut k: usize = 0;
        while k < data.len()
            invariant
                k <= data@.len(),
                self@ == start + bytes_bits(data@.subrange(0, k as int)),
            decreases data@.len() - k,
        {
            self.push_low_bits(data[k] as u32, 8);
            proof {
                let pre = data@.subrange(0, k + 1);
                assert(pre.drop_last() =~= data@.subrange(0, k as int));
            }
            k += 1;
        }
        assert(data@.subrange(0, data@.len() as int) =~= data@);
    }

    /// The bits packed into bytes, most significant first; the last byte is
    /// padded with zero bits.
    pub fn as_bytes(&self) -> (r: Vec<u8>)
        ensures
            r@ == pack_bits(self@),
    {
        let n = self.data.len();
        let nbytes = n / 8 + if n % 8 != 0 {
            1usize
        } else {
            0usize
        };
        let mut res: Vec<u8> = Vec::new();
        let mut b: usize = 0;
        while b < nbytes
            invariant
                n == self@.len(),
                nbytes == (n + 7) / 8,
                b <= nbytes,
                res@.len() == b,
                forall|q: int| 0 <= q < b ==> #[trigger] res@[q] == chunk_value(self@, 8 * q, 8) as u8,
            decreases nbytes - b,
        {
            let mut acc: u32 = 0;
            let mut k: usize = 0;
            while k < 8
                invariant
                    n == self@.len(),
                    b < nbytes == (n + 7) / 8,
                    k <= 8,
                    acc as nat == chunk_value(self@, 8 * b, k as nat),
                decreases 8 - k,
            {
                proof {
                    lemma_chunk_value_bound(self@, 8 * b, k as nat);
                    lemma2_to64();
                    if k < 8 {
                        vstd::arithmetic::power2::lemma_pow2_strictly_increases(k as nat, 8);
                    }
                }
                let idx = 8 * b + k;
                let bit: u32 = if idx < n && self.data[idx] {
                    1
                } else {
                    0
                };
                acc = acc * 2 + bit;
                k += 1;
            }
            res.push(acc as u8);
            b += 1;
        }
        assert(res@ =~= pack_bits(self@));
        res
    }

    /// The length in whole bytes, counting a partial last byte.
    pub fn len(&self) -> (r: usize)
        ensures
            r == (self@.len() + 7) / 8,
    {
        let n = self.data.len();
        n / 8 + if n % 8 != 0 {
            1usize
        } else {
            0usize
        }
    }

    /// The number of bits.
    pub fn bit_len(&self) -> (r: usize)
        ensures
            r == self@.len(),
    {
        self.data.len()
    }

    /// The number of bits in the last, partial byte.
    pub fn free_bits(&self) -> (r: usize)
        ensures
            r == self@.len() % 8,
    {
        self.data.len() % 8
    }

    /// The bits, first pushed first.
    pub fn into_bits(self) -> (r: Vec<bool>)
        ensures
            r@ == self@,
    {
        self.data
    }
}

impl From<Bitstream> for Vec<bool> {
    fn from(value: Bitstream) -> (r: Vec<bool>) {
        value.data
    }
}

impl vstd::std_specs::convert::FromSpecImpl<Bitstream> for Vec<bool> {
    open spec fn obeys_from_spec() -> bool {
        true
    }

    closed spec fn from_spec(v: Bitstream) -> Vec<bool> {
        v.data
    }
}

} // verus!
