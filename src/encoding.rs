//! Message analysis and data codewords: mode detection, version selection,
//! bit packing of a segment, padding, blocking and interleaving.
use vstd::prelude::*;

use crate::bitstream::{lemma_uint_bits_len, lemma_uint_bits_zero, pack_bits, uint_bits, Bitstream};
use crate::error::QrError;
use crate::rsec::{rs_encode, rs_parity_spec};
use crate::tables::{DATA_CODEWORDS, ECC_PER_BLOCK, LENGTH_BITS, NUM_BLOCKS, REMAINDER_BITS};

verus! {

/// How the characters of a segment are packed into bits.
#[derive(Debug, PartialEq, Eq, Clone, Copy, Structural)]
pub enum Mode {
    Numeric,
    Alphanumeric,
    Byte,
    Kanji,
}

/// Error-correction strength, lowest first.
#[derive(Debug, PartialEq, Eq, Clone, Copy, Structural)]
pub enum ECLevel {
    Low,
    Medium,
    Quartile,
    High,
}

/// The four-bit mode indicator.
pub open spec fn mode_indicator_spec(mode: Mode) -> u8 {
    match mode {
        Mode::Numeric => 0b0001,
        Mode::Alphanumeric => 0b0010,
        Mode::Byte => 0b0100,
        Mode::Kanji => 0b1000,
    }
}

/// Row of a mode in the table of length-indicator widths.
pub open spec fn mode_row(mode: Mode) -> int {
    match mode {
        Mode::Numeric => 0,
        Mode::Alphanumeric => 1,
        Mode::Byte => 2,
        Mode::Kanji => 3,
    }
}

/// The two-bit code of a level in the format information.
pub open spec fn ec_code_spec(ec: ECLevel) -> usize {
    match ec {
        ECLevel::Low => 0b01,
        ECLevel::Medium => 0b00,
        ECLevel::Quartile => 0b11,
        ECLevel::High => 0b10,
    }
}

/// Row of a level in the block tables.
pub open spec fn ec_row(ec: ECLevel) -> int {
    match ec {
        ECLevel::Low => 0,
        ECLevel::Medium => 1,
        ECLevel::Quartile => 2,
        ECLevel::High => 3,
    }
}

impl Mode {
    /// The four-bit mode indicator.
    pub fn indicator(&self) -> (r: u8)
        ensures
            r == mode_indicator_spec(*self),
    {
        match self {
            Mode::Numeric => 0b0001,
            Mode::Alphanumeric => 0b0010,
            Mode::Byte => 0b0100,
            Mode::Kanji => 0b1000,
        }
    }

    fn row(&self) -> (r: usize)
        ensures
            r == mode_row(*self),
    {
        match self {
            Mode::Numeric => 0,
            Mode::Alphanumeric => 1,
            Mode::Byte => 2,
            Mode::Kanji => 3,
        }
    }
}

impl ECLevel {
    /// The two-bit code of the level in the format information.
    pub fn code(&self) -> (r: usize)
        ensures
            r == ec_code_spec(*self),
    {
        match self {
            ECLevel::Low => 0b01,
            ECLevel::Medium => 0b00,
            ECLevel::Quartile => 0b11,
            ECLevel::High => 0b10,
        }
    }

    fn row(&self) -> (r: usize)
        ensures
            r == ec_row(*self),
    {
        match self {
            ECLevel::Low => 0,
            ECLevel::Medium => 1,
            ECLevel::Quartile => 2,
            ECLevel::High => 3,
        }
    }
}

pub open spec fn is_digit(c: char) -> bool {
    '0' <= c && c <= '9'
}

/// Position of a character in the 45-symbol alphanumeric alphabet
/// `0-9`, `A-Z`, space, `$ % * + - . / :`.
pub open spec fn alnum_index_spec(c: char) -> Option<nat> {
    if is_digit(c) {
        Some((c as nat - '0' as nat) as nat)
    } else if 'A' <= c && c <= 'Z' {
        Some((c as nat - 'A' as nat + 10) as nat)
    } else if c == ' ' {
        Some(36)
    } else if c == '$' {
        Some(37)
    } else if c == '%' {
        Some(38)
    } else if c == '*' {
        Some(39)
    } else if c == '+' {
        Some(40)
    } else if c == '-' {
        Some(41)
    } else if c == '.' {
        Some(42)
    } else if c == '/' {
        Some(43)
    } else if c == ':' {
        Some(44)
    } else {
        None
    }
}

pub open spec fn all_numeric(s: Seq<char>) -> bool {
    forall|i: int| 0 <= i < s.len() ==> is_digit(#[trigger] s[i])
}

pub open spec fn all_alphanumeric(s: Seq<char>) -> bool {
    forall|i: int| 0 <= i < s.len() ==> (#[trigger] alnum_index_spec(s[i])).is_some()
}

pub open spec fn all_ascii(s: Seq<char>) -> bool {
    forall|i: int| 0 <= i < s.len() ==> (#[trigger] s[i] as u32) < 128
}

/// The mode of a message: the most compact of the three supported modes
/// that holds every character, or none.
pub open spec fn detect_mode_spec(s: Seq<char>) -> Option<Mode> {
    if all_numeric(s) {
        Some(Mode::Numeric)
    } else if all_alphanumeric(s) {
        Some(Mode::Alphanumeric)
    } else if all_ascii(s) {
        Some(Mode::Byte)
    } else {
        None
    }
}

/// Whether `mode` can encode every character of `s`.
pub open spec fn mode_holds(mode: Mode, s: Seq<char>) -> bool {
    match mode {
        Mode::Numeric => all_numeric(s),
        Mode::Alphanumeric => all_alphanumeric(s),
        Mode::Byte => all_ascii(s),
        Mode::Kanji => false,
    }
}

/// The position of `c` in the alphanumeric alphabet.
pub fn char_to_alphanum(c: char) -> (r: Option<u8>)
    ensures
        r.is_some() == alnum_index_spec(c).is_some(),
        r.is_some() ==> r.unwrap() as nat == alnum_index_spec(c).unwrap(),
{
    if '0' <= c && c <= '9' {
        Some((c as u32 - '0' as u32) as u8)
    } else if 'A' <= c && c <= 'Z' {
        Some((c as u32 - 'A' as u32 + 10) as u8)
    } else if c == ' ' {
        Some(36)
    } else if c == '$' {
        Some(37)
    } else if c == '%' {
        Some(38)
    } else if c == '*' {
        Some(39)
    } else if c == '+' {
        Some(40)
    } else if c == '-' {
        Some(41)
    } else if c == '.' {
        Some(42)
    } else if c == '/' {
        Some(43)
    } else if c == ':' {
        Some(44)
    } else {
        None
    }
}

fn is_numeric(data: &str) -> (r: bool)
    ensures
        r == all_numeric(data@),
{
    let n = data.unicode_len();
    let mut i: usize = 0;
    while i < n
        invariant
            n == data@.len(),
            i <= n,
            forall|k: int| 0 <= k < i ==> is_digit(#[trigger] data@[k]),
        decreases n - i,
    {
        let c = data.get_char(i);
        if !('0' <= c && c <= '9') {
            return false;
        }
        i += 1;
    }
    true
}

fn is_alphanumeric(data: &str) -> (r: bool)
    ensures
        r == all_alphanumeric(data@),
{
    let n = data.unicode_len();
    let mut i: usize = 0;
    while i < n
        invariant
            n == data@.len(),
            i <= n,
            forall|k: int| 0 <= k < i ==> (#[trigger] alnum_index_spec(data@[k])).is_some(),
        decreases n - i,
    {
        let c = data.get_char(i);
        if char_to_alphanum(c).is_none() {
            return false;
        }
        i += 1;
    }
    true
}

fn is_ascii_text(data: &str) -> (r: bool)
    ensures
        r == all_ascii(data@),
{
    let n = data.unicode_len();
    let mut i: usize = 0;
    while i < n
        invariant
            n == data@.len(),
            i <= n,
            forall|k: int| 0 <= k < i ==> (#[trigger] data@[k] as u32) < 128,
        decreases n - i,
    {
        let c = data.get_char(i);
        if c as u32 >= 128 {
            return false;
        }
        i += 1;
    }
    true
}

/// The most compact supported mode for `data`; non-ASCII text is refused.
pub fn detect_mode(data: &str) -> (r: Result<Mode, QrError>)
    ensures
        detect_mode_spec(data@).is_some() ==> r == Ok::<Mode, QrError>(
            detect_mode_spec(data@).unwrap(),
        ),
        detect_mode_spec(data@).is_none() ==> r == Err::<Mode, QrError>(QrError::UnsupportedInput),
{
    if is_numeric(data) {
        Ok(Mode::Numeric)
    } else if is_alphanumeric(data) {
        Ok(Mode::Alphanumeric)
    } else if is_ascii_text(data) {
        Ok(Mode::Byte)
    } else {
        Err(QrError::UnsupportedInput)
    }
}

/// The version band of the length-indicator table.
pub open spec fn version_band(version: int) -> int {
    if version <= 9 {
        0
    } else if version <= 26 {
        1
    } else {
        2
    }
}

/// Width of the character-count indicator.
pub open spec fn length_bits_spec(mode: Mode, version: int) -> nat {
    LENGTH_BITS@[mode_row(mode) * 3 + version_band(version)] as nat
}

/// Width of the character-count indicator, for versions `1..=40`.
pub fn get_length_bits(mode: Mode, version: usize) -> (r: Option<usize>)
    ensures
        (1 <= version <= 40) == r.is_some(),
        r.is_some() ==> r.unwrap() == length_bits_spec(mode, version as int),
{
    if version < 1 || version > 40 {
        return None;
    }
    let band: usize = if version <= 9 {
        0
    } else if version <= 26 {
        1
    } else {
        2
    };
    Some(LENGTH_BITS[mode.row() * 3 + band] as usize)
}

/// Number of bits of the body of a segment of `n` characters.
pub open spec fn data_len_spec(mode: Mode, n: nat) -> nat {
    match mode {
        Mode::Numeric => (n / 3) * 10 + if n % 3 == 1 {
            4nat
        } else if n % 3 == 2 {
            7nat
        } else {
            0nat
        },
        Mode::Alphanumeric => (n / 2) * 11 + (n % 2) * 6,
        Mode::Byte => n * 8,
        Mode::Kanji => n * 13,
    }
}

/// Number of bits of the body of a segment of `len` characters.
pub fn data_len(mode: Mode, len: usize) -> (r: usize)
    requires
        len <= usize::MAX / 16,
    ensures
        r == data_len_spec(mode, len as nat),
{
    match mode {
        Mode::Numeric => (len / 3) * 10 + if len % 3 == 1 {
            4
        } else if len % 3 == 2 {
            7
        } else {
            0
        },
        Mode::Alphanumeric => (len / 2) * 11 + (len % 2) * 6,
        Mode::Byte => len * 8,
        Mode::Kanji => len * 13,
    }
}

pub open spec fn table_index(v: int, ec: ECLevel) -> int {
    ec_row(ec) * 40 + v - 1
}

/// Parity codewords of each block.
pub open spec fn ecc_per_block(v: int, ec: ECLevel) -> int {
    ECC_PER_BLOCK@[table_index(v, ec)] as int
}

/// Number of blocks.
pub open spec fn num_blocks(v: int, ec: ECLevel) -> int {
    NUM_BLOCKS@[table_index(v, ec)] as int
}

/// Data codewords of the symbol at this level.
pub open spec fn data_codewords(v: int, ec: ECLevel) -> int {
    DATA_CODEWORDS@[table_index(v, ec)] as int
}

/// All codewords of the symbol, data and parity.
pub open spec fn total_codewords(v: int, ec: ECLevel) -> int {
    data_codewords(v, ec) + ecc_per_block(v, ec) * num_blocks(v, ec)
}

/// Modules left over after the last whole codeword.
pub open spec fn remainder_bits(v: int) -> int {
    REMAINDER_BITS@[v - 1] as int
}

/// Facts of the block tables: every level of every version has at least one
/// block, and at least as many data codewords as blocks.
pub proof fn lemma_block_tables(v: int, ec: ECLevel)
    requires
        1 <= v <= 40,
    ensures
        1 <= num_blocks(v, ec) <= 81,
        1 <= ecc_per_block(v, ec) <= 30,
        num_blocks(v, ec) <= data_codewords(v, ec) <= 2956,
        data_codewords(v, ec) / num_blocks(v, ec) + 1 + ecc_per_block(v, ec) <= 255,
{
    assert(forall|i: int|
        0 <= i < 160 ==> 1 <= #[trigger] NUM_BLOCKS@[i] <= 81 && 1 <= ECC_PER_BLOCK@[i] <= 30
            && NUM_BLOCKS@[i] as int <= DATA_CODEWORDS@[i] as int && DATA_CODEWORDS@[i] <= 2956
            && DATA_CODEWORDS@[i] as int <= 153 * NUM_BLOCKS@[i] as int);
    assert(0 <= table_index(v, ec) < 160);
    let nb = num_blocks(v, ec);
    let dc = data_codewords(v, ec);
    vstd::arithmetic::div_mod::lemma_div_is_ordered(dc, 153 * nb, nb);
    vstd::arithmetic::div_mod::lemma_div_by_multiple(153, nb);
}

/// Whether a segment of `n` characters in `mode` fits version `v`: mode
/// indicator, character count and body, rounded up to whole bytes.
pub open spec fn fits(mode: Mode, n: nat, ec: ECLevel, v: int) -> bool {
    let bits = 4 + length_bits_spec(mode, v) + data_len_spec(mode, n);
    (bits + 7) / 8 <= data_codewords(v, ec)
}

/// The smallest version from `min_version` up to 40 that fits.
pub open spec fn first_fit(mode: Mode, n: nat, ec: ECLevel, min_version: int) -> Option<int>
    decreases 41 - min_version,
{
    if min_version > 40 || min_version < 1 {
        None
    } else if fits(mode, n, ec, min_version) {
        Some(min_version)
    } else {
        first_fit(mode, n, ec, min_version + 1)
    }
}

/// Number of data codewords for a version `1..=40` at a level.
pub fn num_data_codewords(version: usize, ec: ECLevel) -> (r: usize)
    requires
        1 <= version <= 40,
    ensures
        r == data_codewords(version as int, ec),
{
    DATA_CODEWORDS[ec.row() * 40 + version - 1] as usize
}

/// The number of bits of a segment rounded up to whole bytes never
/// shrinks as the message grows.
proof fn lemma_data_len_monotone(mode: Mode, n1: nat, n2: nat)
    requires
        n1 <= n2,
    ensures
        data_len_spec(mode, n1) <= data_len_spec(mode, n2),
{
    match mode {
        Mode::Numeric => {
            if n1 / 3 < n2 / 3 {
                assert(n1 / 3 + 1 <= n2 / 3);
                assert(data_len_spec(mode, n1) <= (n1 / 3) * 10 + 7);
                assert((n1 / 3 + 1) * 10 <= (n2 / 3) * 10) by (nonlinear_arith)
                    requires
                        n1 / 3 + 1 <= n2 / 3,
                ;
            }
        },
        Mode::Alphanumeric => {
            if n1 / 2 < n2 / 2 {
                assert((n1 / 2 + 1) * 11 <= (n2 / 2) * 11) by (nonlinear_arith)
                    requires
                        n1 / 2 + 1 <= n2 / 2,
                ;
            }
        },
        Mode::Byte => {
            assert(n1 * 8 <= n2 * 8) by (nonlinear_arith)
                requires
                    n1 <= n2,
            ;
        },
        Mode::Kanji => {
            assert(n1 * 13 <= n2 * 13) by (nonlinear_arith)
                requires
                    n1 <= n2,
            ;
        },
    }
}

pub proof fn lemma_first_fit_bounds(mode: Mode, n: nat, ec: ECLevel, min_version: int)
    ensures
        first_fit(mode, n, ec, min_version).is_some() ==> {
            let v = first_fit(mode, n, ec, min_version).unwrap();
            &&& min_version <= v <= 40
            &&& fits(mode, n, ec, v)
        },
    decreases 41 - min_version,
{
    if 1 <= min_version <= 40 && !fits(mode, n, ec, min_version) {
        lemma_first_fit_bounds(mode, n, ec, min_version + 1);
    }
}

/// Version selection is monotone: a longer message never gets a smaller
/// version, and a message that fits has every shorter one fit too.
pub proof fn lemma_version_monotone(mode: Mode, n1: nat, n2: nat, ec: ECLevel, min_version: int)
    requires
        n1 <= n2,
        first_fit(mode, n2, ec, min_version).is_some(),
    ensures
        first_fit(mode, n1, ec, min_version).is_some(),
        first_fit(mode, n1, ec, min_version).unwrap() <= first_fit(mode, n2, ec, min_version).unwrap(),
    decreases 41 - min_version,
{
    lemma_data_len_monotone(mode, n1, n2);
    lemma_first_fit_bounds(mode, n2, ec, min_version);
    if fits(mode, n2, ec, min_version) {
    } else if fits(mode, n1, ec, min_version) {
    } else {
        lemma_version_monotone(mode, n1, n2, ec, min_version + 1);
    }
}

/// The smallest version from `min_version` up to 40 whose data capacity at
/// level `ec` holds a segment of `len` characters in `mode`.
pub fn select_version(mode: Mode, len: usize, ec: ECLevel, min_version: usize) -> (r: Result<
    usize,
    QrError,
>)
    requires
        len <= usize::MAX / 16,
    ensures
        !(1 <= min_version <= 40) ==> r == Err::<usize, QrError>(QrError::InvalidVersion),
        1 <= min_version <= 40 ==> match first_fit(mode, len as nat, ec, min_version as int) {
            Some(v) => r == Ok::<usize, QrError>(v as usize),
            None => r == Err::<usize, QrError>(QrError::Capacity),
        },
{
    if min_version < 1 || min_version > 40 {
        return Err(QrError::InvalidVersion);
    }
    let body = data_len(mode, len);
    let mut v: usize = min_version;
    while v <= 40
        invariant
            1 <= min_version <= v <= 41,
            body == data_len_spec(mode, len as nat),
            body <= usize::MAX / 16 * 13 + 7,
            first_fit(mode, len as nat, ec, min_version as int) == first_fit(
                mode,
                len as nat,
                ec,
                v as int,
            ),
        decreases 41 - v,
    {
        let lb = get_length_bits(mode, v).unwrap();
        proof {
            assert(LENGTH_BITS@[mode_row(mode) * 3 + version_band(v as int)] <= 16);
        }
        let bits = 4 + lb + body;
        if (bits + 7) / 8 <= num_data_codewords(v, ec) {
            return Ok(v);
        }
        v += 1;
    }
    Err(QrError::Capacity)
}

/// The smallest version of all that holds the segment, if any does.
pub fn detect_version(mode: Mode, len: usize, ec: ECLevel) -> (r: Option<usize>)
    requires
        len <= usize::MAX / 16,
    ensures
        match first_fit(mode, len as nat, ec, 1) {
            Some(v) => r == Some(v as usize),
            None => r.is_none(),
        },
{
    match select_version(mode, len, ec, 1) {
        Ok(v) => Some(v),
        Err(_) => None,
    }
}

pub open spec fn digit_value(c: char) -> nat {
    (c as nat - '0' as nat) as nat
}

pub open spec fn alnum_value(c: char) -> nat {
    alnum_index_spec(c).unwrap()
}

/// Digits three at a time in ten bits; a final pair in seven, a final
/// single digit in four.
pub open spec fn numeric_bits(s: Seq<char>) -> Seq<bool>
    decreases s.len(),
{
    if s.len() == 0 {
        Seq::empty()
    } else if s.len() == 1 {
        uint_bits(digit_value(s[0]), 4)
    } else if s.len() == 2 {
        uint_bits(digit_value(s[0]) * 10 + digit_value(s[1]), 7)
    } else {
        uint_bits(digit_value(s[0]) * 100 + digit_value(s[1]) * 10 + digit_value(s[2]), 10)
            + numeric_bits(s.skip(3))
    }
}

/// Characters two at a time as `45 * a + b` in eleven bits; a final single
/// character in six.
pub open spec fn alnum_bits(s: Seq<char>) -> Seq<bool>
    decreases s.len(),
{
    if s.len() == 0 {
        Seq::empty()
    } else if s.len() == 1 {
        uint_bits(alnum_value(s[0]), 6)
    } else {
        uint_bits(alnum_value(s[0]) * 45 + alnum_value(s[1]), 11) + alnum_bits(s.skip(2))
    }
}

/// Each character as its eight-bit code.
pub open spec fn byte_bits(s: Seq<char>) -> Seq<bool>
    decreases s.len(),
{
    if s.len() == 0 {
        Seq::empty()
    } else {
        uint_bits(s[0] as nat, 8) + byte_bits(s.skip(1))
    }
}

/// The body of a segment.
pub open spec fn body_bits(mode: Mode, s: Seq<char>) -> Seq<bool> {
    match mode {
        Mode::Numeric => numeric_bits(s),
        Mode::Alphanumeric => alnum_bits(s),
        _ => byte_bits(s),
    }
}

/// Mode indicator, character count and body.
pub open spec fn segment_bits(mode: Mode, s: Seq<char>, v: int) -> Seq<bool> {
    uint_bits(mode_indicator_spec(mode) as nat, 4) + uint_bits(s.len(), length_bits_spec(mode, v))
        + body_bits(mode, s)
}

pub open spec fn zero_bits(n: nat) -> Seq<bool> {
    Seq::new(n, |i: int| false)
}

/// Alternating pad codewords `0xEC, 0x11`.
pub open spec fn pad_bytes(n: nat) -> Seq<u8> {
    Seq::new(n, |i: int| if i % 2 == 0 { 0xECu8 } else { 0x11u8 })
}

/// The segment followed by a terminator of up to four zero bits, zero bits
/// up to a byte boundary, then pad codewords up to the data capacity.
pub open spec fn data_stream(mode: Mode, s: Seq<char>, v: int, ec: ECLevel) -> Seq<u8> {
    let bits = segment_bits(mode, s, v);
    let cap = 8 * data_codewords(v, ec);
    let t = if cap - bits.len() < 4 { cap - bits.len() } else { 4 };
    let b2 = bits + zero_bits(t as nat);
    let b3 = b2 + zero_bits(((8 - b2.len() % 8) % 8) as nat);
    pack_bits(b3) + pad_bytes((data_codewords(v, ec) - b3.len() / 8) as nat)
}

/// Length of the short blocks; the last `data % blocks` blocks hold one
/// codeword more.
pub open spec fn short_len(dc: int, nb: int) -> int {
    dc / nb
}

pub open spec fn num_short(dc: int, nb: int) -> int {
    nb - dc % nb
}

pub open spec fn block_start(dc: int, nb: int, b: int) -> int {
    b * short_len(dc, nb) + if b > num_short(dc, nb) { b - num_short(dc, nb) } else { 0 }
}

pub open spec fn block_len(dc: int, nb: int, b: int) -> int {
    if b < num_short(dc, nb) { short_len(dc, nb) } else { short_len(dc, nb) + 1 }
}

/// Block `b` of the data codewords.
pub open spec fn block_of(d: Seq<u8>, nb: int, b: int) -> Seq<u8> {
    d.subrange(block_start(d.len() as int, nb, b), block_start(d.len() as int, nb, b) + block_len(d.len() as int, nb, b))
}

/// The final codeword stream: data codewords taken a column at a time across
/// the blocks (short blocks skipping the last column), then the parity
/// codewords of each block in the same way.
pub open spec fn interleave_spec(d: Seq<u8>, nb: int, ecc: int) -> Seq<u8> {
    let dc = d.len() as int;
    let sz = short_len(dc, nb);
    let short = num_short(dc, nb);
    Seq::new(
        (dc + ecc * nb) as nat,
        |p: int|
            if p < sz * nb {
                d[block_start(dc, nb, p % nb) + p / nb]
            } else if p < dc {
                d[block_start(dc, nb, short + (p - sz * nb)) + sz]
            } else {
                rs_parity_spec(block_of(d, nb, (p - dc) % nb), ecc as nat)[(p - dc) / nb]
            },
    )
}

/// The codeword stream of a message: data codewords, blocks, parity and
/// interleaving.
#[verifier::opaque]
pub open spec fn codewords_spec(mode: Mode, s: Seq<char>, v: int, ec: ECLevel) -> Seq<u8> {
    interleave_spec(data_stream(mode, s, v, ec), num_blocks(v, ec), ecc_per_block(v, ec))
}

proof fn lemma_block_layout(dc: int, nb: int, b: int)
    requires
        1 <= nb <= dc,
        0 <= b <= nb,
    ensures
        b < nb ==> block_start(dc, nb, b + 1) == block_start(dc, nb, b) + block_len(dc, nb, b),
        0 <= block_start(dc, nb, b) <= dc,
        block_start(dc, nb, nb) == dc,
        b < nb ==> block_start(dc, nb, b) + block_len(dc, nb, b) <= dc,
        short_len(dc, nb) >= 1,
        0 < num_short(dc, nb) <= nb,
        short_len(dc, nb) * nb <= dc,
        short_len(dc, nb) * nb + (nb - num_short(dc, nb)) == dc,
{
    let sz = short_len(dc, nb);
    assert(dc == nb * sz + dc % nb) by {
        vstd::arithmetic::div_mod::lemma_fundamental_div_mod(dc, nb);
    }
    assert(sz >= 1) by {
        vstd::arithmetic::div_mod::lemma_div_is_ordered(nb, dc, nb);
        vstd::arithmetic::div_mod::lemma_div_by_self(nb);
    }
    assert((b + 1) * sz == b * sz + sz) by (nonlinear_arith);
    assert(sz * nb == nb * sz) by (nonlinear_arith);
    assert(b * sz <= nb * sz) by (nonlinear_arith)
        requires
            b <= nb,
            sz >= 1,
    ;
    assert(b * sz >= 0) by (nonlinear_arith)
        requires
            b >= 0,
            sz >= 1,
    ;
    assert(nb * sz == sz * nb) by (nonlinear_arith);
    if b < nb {
        assert((b + 1) * sz <= nb * sz) by (nonlinear_arith)
            requires
                b + 1 <= nb,
                sz >= 1,
        ;
    }
}

/// Splits the data codewords into blocks, appends the parity of each, and
/// interleaves the result.
pub fn interleave_and_ec(bytes: &[u8], version: usize, ec: ECLevel) -> (r: Vec<u8>)
    requires
        1 <= version <= 40,
        bytes@.len() == data_codewords(version as int, ec),
    ensures
        r@ == interleave_spec(bytes@, num_blocks(version as int, ec), ecc_per_block(version as int, ec)),
{
    proof {
        lemma_block_tables(version as int, ec);
    }
    let ghost d = bytes@;
    let idx = ec.row() * 40 + version - 1;
    let nb = NUM_BLOCKS[idx] as usize;
    let ecc = ECC_PER_BLOCK[idx] as usize;
    let dc = bytes.len();
    let sz = dc / nb;
    let short = nb - dc % nb;
    proof {
        lemma_block_layout(dc as int, nb as int, 0);
    }
    let mut blocks: Vec<Vec<u8>> = Vec::new();
    let mut parities: Vec<Vec<u8>> = Vec::new();
    let mut start: usize = 0;
    let mut b: usize = 0;
    while b < nb
        invariant
            d == bytes@,
            1 <= nb <= dc,
            dc == d.len(),
            sz == short_len(dc as int, nb as int),
            short == num_short(dc as int, nb as int),
            sz + 1 + ecc <= 255,
            b <= nb,
            start == block_start(dc as int, nb as int, b as int),
            blocks@.len() == b,
            parities@.len() == b,
            forall|q: int| 0 <= q < b ==> (#[trigger] blocks@[q])@ == block_of(d, nb as int, q),
            forall|q: int|
                0 <= q < b ==> (#[trigger] parities@[q])@ == rs_parity_spec(
                    block_of(d, nb as int, q),
                    ecc as nat,
                ),
        decreases nb - b,
    {
        proof {
            lemma_block_layout(dc as int, nb as int, b as int);
        }
        let len = if b < short {
            sz
        } else {
            sz + 1
        };
        let block = vstd::slice::slice_to_vec(vstd::slice::slice_subrange(bytes, start, start + len));
        assert(block@ == block_of(d, nb as int, b as int));
        let full = rs_encode(block.as_slice(), ecc).unwrap();
        proof {
            crate::rsec::lemma_rs_parity_len(block@, ecc as nat);
            assert(full@.subrange(len as int, (len + ecc) as int) =~= rs_parity_spec(block@, ecc as nat));
        }
        let parity = vstd::slice::slice_to_vec(vstd::slice::slice_subrange(full.as_slice(), len, len + ecc));
        assert(parity@ =~= rs_parity_spec(block_of(d, nb as int, b as int), ecc as nat));
        blocks.push(block);
        parities.push(parity);
        start = start + len;
        b += 1;
    }
    let ghost spec_r = interleave_spec(d, nb as int, ecc as int);
    proof {
        lemma_block_layout(dc as int, nb as int, 0);
        assert(ecc * nb >= 0) by (nonlinear_arith)
            requires
                ecc >= 0,
                nb >= 0,
        ;
    }
    let mut res: Vec<u8> = Vec::new();
    let mut i: usize = 0;
    while i < sz
        invariant
            d == bytes@,
            1 <= nb <= dc,
            dc == d.len(),
            sz == short_len(dc as int, nb as int),
            short == num_short(dc as int, nb as int),
            i <= sz,
            spec_r == interleave_spec(d, nb as int, ecc as int),
            spec_r.len() == dc + ecc * nb,
            short_len(dc as int, nb as int) * nb <= dc,
            blocks@.len() == nb,
            forall|q: int| 0 <= q < nb ==> (#[trigger] blocks@[q])@ == block_of(d, nb as int, q),
            res@.len() == i * nb,
            forall|p: int| 0 <= p < res@.len() ==> #[trigger] res@[p] == spec_r[p],
        decreases sz - i,
    {
        let mut b: usize = 0;
        while b < nb
            invariant
                d == bytes@,
                1 <= nb <= dc,
                dc == d.len(),
                sz == short_len(dc as int, nb as int),
                short == num_short(dc as int, nb as int),
                i < sz,
                b <= nb,
                spec_r == interleave_spec(d, nb as int, ecc as int),
                spec_r.len() == dc + ecc * nb,
                short_len(dc as int, nb as int) * nb <= dc,
            spec_r.len() == dc + ecc * nb,
            short_len(dc as int, nb as int) * nb <= dc,
                blocks@.len() == nb,
                forall|q: int| 0 <= q < nb ==> (#[trigger] blocks@[q])@ == block_of(d, nb as int, q),
                res@.len() == i * nb + b,
                forall|p: int| 0 <= p < res@.len() ==> #[trigger] res@[p] == spec_r[p],
            decreases nb - b,
        {
            proof {
                lemma_block_layout(dc as int, nb as int, b as int);
                let p = i * nb + b;
                vstd::arithmetic::div_mod::lemma_fundamental_div_mod_converse(p as int, nb as int, i as int, b as int);
                assert(p < sz * nb) by (nonlinear_arith)
                    requires
                        p == i * nb + b,
                        b < nb,
                        i + 1 <= sz,
                ;
                assert(sz * nb <= dc) by {
                    vstd::arithmetic::div_mod::lemma_fundamental_div_mod(dc as int, nb as int);
                    assert(sz * nb == nb * sz) by (nonlinear_arith);
                }
            }
            let v = blocks[b][i];
            res.push(v);
            b += 1;
        }
        assert((i + 1) * nb == i * nb + nb) by (nonlinear_arith);
        i += 1;
    }
    let mut b: usize = short;
    while b < nb
        invariant
            d == bytes@,
            1 <= nb <= dc,
            dc == d.len(),
            sz == short_len(dc as int, nb as int),
            short == num_short(dc as int, nb as int),
            short <= b <= nb,
            spec_r == interleave_spec(d, nb as int, ecc as int),
            spec_r.len() == dc + ecc * nb,
            short_len(dc as int, nb as int) * nb <= dc,
            blocks@.len() == nb,
            forall|q: int| 0 <= q < nb ==> (#[trigger] blocks@[q])@ == block_of(d, nb as int, q),
            res@.len() == sz * nb + (b - short),
            forall|p: int| 0 <= p < res@.len() ==> #[trigger] res@[p] == spec_r[p],
        decreases nb - b,
    {
        proof {
            lemma_block_layout(dc as int, nb as int, b as int);
            vstd::arithmetic::div_mod::lemma_fundamental_div_mod(dc as int, nb as int);
            assert(sz * nb == nb * sz) by (nonlinear_arith);
        }
        let v = blocks[b][sz];
        res.push(v);
        b += 1;
    }
    proof {
        vstd::arithmetic::div_mod::lemma_fundamental_div_mod(dc as int, nb as int);
        assert(sz * nb == nb * sz) by (nonlinear_arith);
        assert(res@.len() == dc);
    }
    let mut i: usize = 0;
    while i < ecc
        invariant
            d == bytes@,
            1 <= nb <= dc,
            dc == d.len(),
            i <= ecc,
            ecc + 1 <= 255,
            spec_r == interleave_spec(d, nb as int, ecc as int),
            spec_r.len() == dc + ecc * nb,
            short_len(dc as int, nb as int) * nb <= dc,
            parities@.len() == nb,
            forall|q: int|
                0 <= q < nb ==> (#[trigger] parities@[q])@ == rs_parity_spec(
                    block_of(d, nb as int, q),
                    ecc as nat,
                ),
            res@.len() == dc + i * nb,
            forall|p: int| 0 <= p < res@.len() ==> #[trigger] res@[p] == spec_r[p],
        decreases ecc - i,
    {
        let mut b: usize = 0;
        while b < nb
            invariant
                d == bytes@,
                1 <= nb <= dc,
                dc == d.len(),
                i < ecc,
                b <= nb,
                spec_r == interleave_spec(d, nb as int, ecc as int),
                spec_r.len() == dc + ecc * nb,
                short_len(dc as int, nb as int) * nb <= dc,
            spec_r.len() == dc + ecc * nb,
            short_len(dc as int, nb as int) * nb <= dc,
                parities@.len() == nb,
                forall|q: int|
                    0 <= q < nb ==> (#[trigger] parities@[q])@ == rs_parity_spec(
                        block_of(d, nb as int, q),
                        ecc as nat,
                    ),
                res@.len() == dc + i * nb + b,
                forall|p: int| 0 <= p < res@.len() ==> #[trigger] res@[p] == spec_r[p],
            decreases nb - b,
        {
            proof {
                let q = i * nb + b;
                vstd::arithmetic::div_mod::lemma_fundamental_div_mod_converse(q as int, nb as int, i as int, b as int);
                assert(q < ecc * nb) by (nonlinear_arith)
                    requires
                        q == i * nb + b,
                        b < nb,
                        i + 1 <= ecc,
                ;
                crate::rsec::lemma_rs_parity_len(block_of(d, nb as int, b as int), ecc as nat);
            }
            let v = parities[b][i];
            res.push(v);
            b += 1;
        }
        assert((i + 1) * nb == i * nb + nb) by (nonlinear_arith);
        i += 1;
    }
    assert(res@ =~= spec_r);
    res
}

pub proof fn lemma_body_len(mode: Mode, s: Seq<char>)
    requires
        mode != Mode::Kanji,
    ensures
        body_bits(mode, s).len() == data_len_spec(mode, s.len()),
        data_len_spec(mode, s.len()) >= 3 * s.len(),
    decreases s.len(),
{
    match mode {
        Mode::Numeric => {
            if s.len() == 1 {
                lemma_uint_bits_len(digit_value(s[0]), 4);
            } else if s.len() == 2 {
                lemma_uint_bits_len(digit_value(s[0]) * 10 + digit_value(s[1]), 7);
            } else if s.len() >= 3 {
                lemma_body_len(mode, s.skip(3));
                lemma_uint_bits_len(digit_value(s[0]) * 100 + digit_value(s[1]) * 10 + digit_value(s[2]), 10);
            }
        },
        Mode::Alphanumeric => {
            if s.len() == 1 {
                lemma_uint_bits_len(alnum_value(s[0]), 6);
            } else if s.len() >= 2 {
                lemma_body_len(mode, s.skip(2));
                lemma_uint_bits_len(alnum_value(s[0]) * 45 + alnum_value(s[1]), 11);
            }
        },
        _ => {
            if s.len() >= 1 {
                lemma_body_len(mode, s.skip(1));
                lemma_uint_bits_len(s[0] as nat, 8);
            }
        },
    }
}

/// Appends the numeric body of `data`.
fn push_numeric(bs: &mut Bitstream, data: &str, n: usize)
    requires
        n == data@.len(),
        all_numeric(data@),
    ensures
        final(bs)@ == old(bs)@ + numeric_bits(data@),
{
    let ghost s = data@;
    let mut i: usize = 0;
    assert(s.subrange(0, n as int) =~= s);
    assert(bs@ + numeric_bits(s.subrange(0, n as int)) == old(bs)@ + numeric_bits(s));
    while i < n
        invariant
            n == s.len(),
            s == data@,
            i <= n,
            all_numeric(s),
            bs@ + numeric_bits(s.subrange(i as int, n as int)) == old(bs)@ + numeric_bits(s),
        decreases n - i,
    {
        let ghost t = s.subrange(i as int, n as int);
        let rem = n - i;
        let c0 = data.get_char(i);
        let d0 = c0 as u32 - '0' as u32;
        assert(is_digit(s[i as int]));
        if rem >= 3 {
            let c1 = data.get_char(i + 1);
            let c2 = data.get_char(i + 2);
            assert(is_digit(s[i + 1]) && is_digit(s[i + 2]));
            let d1 = c1 as u32 - '0' as u32;
            let d2 = c2 as u32 - '0' as u32;
            let ghost before = bs@;
            let _ = bs.push_u32(d0 * 100 + d1 * 10 + d2, 10);
            assert(t.skip(3) =~= s.subrange(i + 3, n as int));
            assert(bs@ + numeric_bits(s.subrange(i + 3, n as int)) =~= before + numeric_bits(t));
            i += 3;
        } else if rem == 2 {
            let c1 = data.get_char(i + 1);
            assert(is_digit(s[i + 1]));
            let d1 = c1 as u32 - '0' as u32;
            let ghost before = bs@;
            let _ = bs.push_u32(d0 * 10 + d1, 7);
            assert(s.subrange(n as int, n as int) =~= Seq::<char>::empty());
            assert(bs@ + numeric_bits(s.subrange(n as int, n as int)) =~= before + numeric_bits(t));
            i += 2;
        } else {
            let ghost before = bs@;
            let _ = bs.push_u32(d0, 4);
            assert(s.subrange(n as int, n as int) =~= Seq::<char>::empty());
            assert(bs@ + numeric_bits(s.subrange(n as int, n as int)) =~= before + numeric_bits(t));
            i += 1;
        }
    }
    assert(s.subrange(n as int, n as int) =~= Seq::<char>::empty());
}

/// Appends the alphanumeric body of `data`.
fn push_alphanumeric(bs: &mut Bitstream, data: &str, n: usize)
    requires
        n == data@.len(),
        all_alphanumeric(data@),
    ensures
        final(bs)@ == old(bs)@ + alnum_bits(data@),
{
    let ghost s = data@;
    let mut i: usize = 0;
    assert(s.subrange(0, n as int) =~= s);
    assert(bs@ + alnum_bits(s.subrange(0, n as int)) == old(bs)@ + alnum_bits(s));
    while i < n
        invariant
            n == s.len(),
            s == data@,
            i <= n,
            all_alphanumeric(s),
            bs@ + alnum_bits(s.subrange(i as int, n as int)) == old(bs)@ + alnum_bits(s),
        decreases n - i,
    {
        let ghost t = s.subrange(i as int, n as int);
        let rem = n - i;
        let c0 = data.get_char(i);
        assert(alnum_index_spec(s[i as int]).is_some());
        let a0 = char_to_alphanum(c0).unwrap() as u32;
        if rem >= 2 {
            let c1 = data.get_char(i + 1);
            assert(alnum_index_spec(s[i + 1]).is_some());
            let a1 = char_to_alphanum(c1).unwrap() as u32;
            let ghost before = bs@;
            let _ = bs.push_u32(a0 * 45 + a1, 11);
            assert(t.skip(2) =~= s.subrange(i + 2, n as int));
            assert(bs@ + alnum_bits(s.subrange(i + 2, n as int)) =~= before + alnum_bits(t));
            i += 2;
        } else {
            let ghost before = bs@;
            let _ = bs.push_u32(a0, 6);
            assert(s.subrange(n as int, n as int) =~= Seq::<char>::empty());
            assert(bs@ + alnum_bits(s.subrange(n as int, n as int)) =~= before + alnum_bits(t));
            i += 1;
        }
    }
    assert(s.subrange(n as int, n as int) =~= Seq::<char>::empty());
}

/// Appends the byte body of `data`.
fn push_text_bytes(bs: &mut Bitstream, data: &str, n: usize)
    requires
        n == data@.len(),
    ensures
        final(bs)@ == old(bs)@ + byte_bits(data@),
{
    let ghost s = data@;
    let mut i: usize = 0;
    assert(s.subrange(0, n as int) =~= s);
    assert(bs@ + byte_bits(s.subrange(0, n as int)) == old(bs)@ + byte_bits(s));
    while i < n
        invariant
            n == s.len(),
            s == data@,
            i <= n,
            bs@ + byte_bits(s.subrange(i as int, n as int)) == old(bs)@ + byte_bits(s),
        decreases n - i,
    {
        let ghost t = s.subrange(i as int, n as int);
        let c0 = data.get_char(i);
        let ghost before = bs@;
        let _ = bs.push_u32(c0 as u32, 8);
        assert(t.skip(1) =~= s.subrange(i + 1, n as int));
        assert(bs@ + byte_bits(s.subrange(i + 1, n as int)) =~= before + byte_bits(t));
        i += 1;
    }
    assert(s.subrange(n as int, n as int) =~= Seq::<char>::empty());
}

/// The data codewords of a message that fits: segment, terminator, bit
/// padding and pad codewords.
#[verifier::rlimit(40)]
fn data_codewords_of(
    data: &str,
    mode: Mode,
    version: usize,
    ec: ECLevel,
    n: usize,
    lb: usize,
    ndc: usize,
) -> (r: Vec<u8>)
    requires
        1 <= version <= 40,
        mode != Mode::Kanji,
        mode_holds(mode, data@),
        n == data@.len() <= 65535,
        lb == length_bits_spec(mode, version as int) <= 16,
        ndc == data_codewords(version as int, ec) <= 2956,
        fits(mode, data@.len(), ec, version as int),
    ensures
        r@ == data_stream(mode, data@, version as int, ec),
        r@.len() == ndc,
{
    let ghost s = data@;
    proof {
        lemma_body_len(mode, s);
    }
    let body = data_len(mode, n);
    let bits = 4 + lb + body;
    let mut bs = Bitstream::new();
    let _ = bs.push_u8(mode.indicator(), 4);
    let _ = bs.push_u32(n as u32, lb as u8);
    let ghost pre = bs@;
    assert(pre =~= uint_bits(mode_indicator_spec(mode) as nat, 4) + uint_bits(s.len(), length_bits_spec(mode, version as int)));
    match mode {
        Mode::Numeric => push_numeric(&mut bs, data, n),
        Mode::Alphanumeric => push_alphanumeric(&mut bs, data, n),
        _ => push_text_bytes(&mut bs, data, n),
    }
    assert(s.subrange(n as int, n as int) =~= Seq::<char>::empty());
    assert(s.subrange(0, n as int) =~= s);
    let ghost seg = segment_bits(mode, s, version as int);
    assert(bs@ =~= seg);
    proof {
        lemma_uint_bits_len(mode_indicator_spec(mode) as nat, 4);
        lemma_uint_bits_len(s.len(), length_bits_spec(mode, version as int));
    }
    assert(seg.len() == bits);
    let cap = 8 * ndc;
    let t: usize = if cap - bits < 4 {
        cap - bits
    } else {
        4
    };
    let _ = bs.push_u8(0, t as u8);
    let pad: usize = (8 - (bits + t) % 8) % 8;
    let _ = bs.push_u8(0, pad as u8);
    proof {
        lemma_uint_bits_zero(t as nat);
        lemma_uint_bits_zero(pad as nat);
    }
    let ghost b2 = seg + zero_bits(t as nat);
    let ghost b3 = b2 + zero_bits(pad as nat);
    assert(bs@ =~= b3);
    let mut cw = bs.as_bytes();
    assert(cw@.len() == b3.len() / 8);
    let ghost packed = cw@;
    let fill = ndc - cw.len();
    let mut k: usize = 0;
    while k < fill
        invariant
            k <= fill,
            fill == ndc - packed.len(),
            packed.len() <= ndc,
            cw@ == packed + pad_bytes(k as nat),
        decreases fill - k,
    {
        let v: u8 = if k % 2 == 0 {
            0xEC
        } else {
            0x11
        };
        cw.push(v);
        k += 1;
        assert(cw@ =~= packed + pad_bytes(k as nat));
    }
    assert(cw@ =~= data_stream(mode, s, version as int, ec));
    cw
}

/// The data codewords of a message in `mode` at `version` and level `ec`,
/// split into blocks with their parity and interleaved; none when the
/// version is out of range, the mode cannot hold the message, or the
/// message does not fit.
#[verifier::rlimit(40)]
pub fn encode(data: &str, mode: Mode, version: usize, ec: ECLevel) -> (r: Option<Vec<u8>>)
    ensures
        r.is_some() == (1 <= version <= 40 && mode_holds(mode, data@) && fits(
            mode,
            data@.len(),
            ec,
            version as int,
        )),
        r.is_some() ==> r.unwrap()@ == codewords_spec(mode, data@, version as int, ec),
{
    if version < 1 || version > 40 {
        return None;
    }
    let holds = match mode {
        Mode::Numeric => is_numeric(data),
        Mode::Alphanumeric => is_alphanumeric(data),
        Mode::Byte => is_ascii_text(data),
        Mode::Kanji => false,
    };
    if !holds {
        return None;
    }
    let ghost s = data@;
    let n = data.unicode_len();
    proof {
        lemma_body_len(mode, s);
        lemma_block_tables(version as int, ec);
    }
    let ndc = num_data_codewords(version, ec);
    let lb = get_length_bits(mode, version).unwrap();
    proof {
        assert(LENGTH_BITS@[mode_row(mode) * 3 + version_band(version as int)] <= 16);
    }
    if n > 65535 {
        return None;
    }
    let body = data_len(mode, n);
    let bits = 4 + lb + body;
    if (bits + 7) / 8 > ndc {
        return None;
    }
    let cw = data_codewords_of(data, mode, version, ec, n, lb, ndc);
    proof {
        reveal(codewords_spec);
    }
    Some(interleave_and_ec(cw.as_slice(), version, ec))
}

} // verus!
