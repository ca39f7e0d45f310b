//! The persistence codec: a board is encoded as two 64-bit little-endian
//! size fields followed by the cells, bit-packed eight to a byte in linear
//! order, least-significant bit first, the final byte zero-padded.

use vstd::prelude::*;

use vstd::arithmetic::div_mod::lemma_basic_div;
use vstd::arithmetic::div_mod::lemma_breakdown;
use vstd::arithmetic::div_mod::lemma_fundamental_div_mod;
use vstd::arithmetic::div_mod::lemma_hoist_over_denominator;
use vstd::arithmetic::div_mod::lemma_mod_multiples_vanish;
use vstd::arithmetic::div_mod::lemma_small_mod;
use vstd::arithmetic::mul::lemma_mul_inequality;
use vstd::arithmetic::mul::lemma_mul_is_associative;
use vstd::arithmetic::mul::lemma_mul_is_commutative;
use vstd::arithmetic::power::pow;
use vstd::arithmetic::power2::lemma2_to64;
use vstd::arithmetic::power2::lemma_pow2_adds;
use vstd::arithmetic::power2::pow2;

use crate::engine::Board;
use crate::engine::Cell;
use crate::engine::bcells;
use crate::engine::bheight;
use crate::engine::board_ok;
use crate::engine::bwidth;
use crate::engine::lemma_board_ok;

verus! {

/// Why a byte sequence failed to decode: cut short, or describing a board
/// larger than this machine can hold.
#[derive(Copy, Clone, Debug, PartialEq, Eq, Structural)]
pub enum FormatError {
    Truncated,
    Oversize,
}

/// Byte `i` of the little-endian encoding of `v`.
pub open spec fn le_byte(v: int, i: int) -> u8 {
    ((v / pow(256, i as nat)) % 256) as u8
}

/// The `len`-byte little-endian encoding of `v`.
pub open spec fn le_bytes(v: int, len: int) -> Seq<u8> {
    Seq::new(len as nat, |i: int| le_byte(v, i))
}

/// The value of the `len` bytes at `off`, read little-endian.
pub open spec fn le_val(bytes: Seq<u8>, off: int, len: int) -> int
    decreases len,
{
    if len <= 0 {
        0
    } else {
        le_val(bytes, off, len - 1) + bytes[off + len - 1] * pow(256, (len - 1) as nat)
    }
}

/// The bit a cell packs to; anything beyond the last cell is 0.
pub open spec fn cell_bit(cells: Seq<Cell>, i: int) -> int {
    if 0 <= i < cells.len() && cells[i] == Cell::Alive {
        1
    } else {
        0
    }
}

/// The low `t` bits of packed byte `j`: bit `s` is cell `8 * j + s`.
pub open spec fn pack_bits(cells: Seq<Cell>, j: int, t: int) -> int
    decreases t,
{
    if t <= 0 {
        0
    } else {
        pack_bits(cells, j, t - 1) + cell_bit(cells, 8 * j + (t - 1)) * pow2((t - 1) as nat)
    }
}

/// Packed byte `j` of the cell stream.
pub open spec fn pack_byte(cells: Seq<Cell>, j: int) -> int {
    pack_bits(cells, j, 8)
}

/// How many bytes `n` cells pack into.
pub open spec fn packed_len(n: int) -> int {
    (n + 7) / 8
}

/// The full encoding of a board: width, height, packed cells.
pub open spec fn encode_bytes(w: int, h: int, cells: Seq<Cell>) -> Seq<u8> {
    le_bytes(w, 8) + le_bytes(h, 8) + Seq::new(
        packed_len(cells.len() as int) as nat,
        |j: int| pack_byte(cells, j) as u8,
    )
}

/// The width field of an encoded board.
pub open spec fn decode_width(bytes: Seq<u8>) -> int {
    le_val(bytes, 0, 8)
}

/// The height field of an encoded board.
pub open spec fn decode_height(bytes: Seq<u8>) -> int {
    le_val(bytes, 8, 8)
}

/// Bit `i` of the packed cell data.
pub open spec fn bit_at(bytes: Seq<u8>, i: int) -> int {
    (bytes[16 + i / 8] as int / pow2((i % 8) as nat) as int) % 2
}

/// The cell bit `i` decodes to.
pub open spec fn decoded_cell(bytes: Seq<u8>, i: int) -> Cell {
    if bit_at(bytes, i) == 1 {
        Cell::Alive
    } else {
        Cell::Dead
    }
}

/// The cells an encoded board describes, flat, in linear order.
pub open spec fn decode_cells(bytes: Seq<u8>) -> Seq<Cell> {
    Seq::new((decode_width(bytes) * decode_height(bytes)) as nat, |i: int| decoded_cell(bytes, i))
}

/// The byte sequence holds both size fields.
pub open spec fn header_ok(bytes: Seq<u8>) -> bool {
    bytes.len() >= 16
}

/// The described board fits this machine's address space.
pub open spec fn sizes_fit(bytes: Seq<u8>) -> bool {
    &&& decode_width(bytes) <= usize::MAX
    &&& decode_height(bytes) <= usize::MAX
    &&& decode_width(bytes) * decode_height(bytes) <= usize::MAX
}

/// The byte sequence holds every packed cell byte the size fields demand.
pub open spec fn data_ok(bytes: Seq<u8>) -> bool {
    bytes.len() - 16 >= packed_len(decode_width(bytes) * decode_height(bytes))
}

/// Reading a window depends only on the bytes inside it.
pub proof fn lemma_le_val_congruent(b1: Seq<u8>, b2: Seq<u8>, off1: int, off2: int, len: int)
    requires
        forall|t: int| 0 <= t < len ==> b1[off1 + t] == #[trigger] b2[off2 + t],
    ensures
        le_val(b1, off1, len) == le_val(b2, off2, len),
    decreases len,
{
    if len > 0 {
        lemma_le_val_congruent(b1, b2, off1, off2, len - 1);
        assert(b1[off1 + (len - 1)] == b2[off2 + (len - 1)]);
    }
}

/// Reading back a little-endian encoding recovers the value, modulo the
/// window's capacity.
pub proof fn lemma_le_val_le_bytes(v: int, len: int)
    requires
        v >= 0,
        len >= 0,
    ensures
        le_val(le_bytes(v, len), 0, len) == v % pow(256, len as nat),
    decreases len,
{
    reveal(pow);
    if len == 0 {
        assert(pow(256, 0) == 1);
        assert(v % 1 == 0) by (nonlinear_arith);
    } else {
        let p = pow(256, (len - 1) as nat);
        vstd::arithmetic::power::lemma_pow_positive(256, (len - 1) as nat);
        lemma_le_val_le_bytes(v, len - 1);
        lemma_le_val_congruent(le_bytes(v, len), le_bytes(v, len - 1), 0, 0, len - 1);
        assert(le_bytes(v, len)[len - 1] == le_byte(v, len - 1));
        assert(0 <= (v / p) % 256 < 256) by (nonlinear_arith)
            requires
                p >= 1,
                v >= 0,
        ;
        assert(le_byte(v, len - 1) as int == (v / p) % 256);
        lemma_breakdown(v, p, 256);
        assert(v % (p * 256) == p * ((v / p) % 256) + v % p);
        assert(pow(256, len as nat) == 256 * p);
        lemma_mul_is_commutative(p, 256);
        lemma_mul_is_commutative(p, (v / p) % 256);
        assert(le_val(le_bytes(v, len), 0, len) == v % p + ((v / p) % 256) * p);
        assert(le_val(le_bytes(v, len), 0, len) == v % pow(256, len as nat));
    }
}

/// Packed bits stay below the matching power of two.
pub proof fn lemma_pack_bits_bound(cells: Seq<Cell>, j: int, t: int)
    requires
        t >= 0,
    ensures
        0 <= pack_bits(cells, j, t) < pow2(t as nat),
    decreases t,
{
    if t == 0 {
        assert(pow2(0) == 1) by {
            lemma2_to64();
        }
    } else {
        lemma_pack_bits_bound(cells, j, t - 1);
        let p = pow2((t - 1) as nat) as int;
        let b = cell_bit(cells, 8 * j + (t - 1));
        assert(pow2(t as nat) == 2 * pow2((t - 1) as nat)) by {
            lemma_pow2_adds(1, (t - 1) as nat);
            lemma2_to64();
        }
        assert(pack_bits(cells, j, t - 1) + b * p < 2 * p) by (nonlinear_arith)
            requires
                0 <= pack_bits(cells, j, t - 1) < p,
                0 <= b <= 1,
        ;
        assert(b * p >= 0) by (nonlinear_arith)
            requires
                b >= 0,
                p >= 1,
        ;
    }
}

/// Extracting bit `r` of a packed byte recovers the matching cell's bit.
pub proof fn lemma_pack_bit_extract(cells: Seq<Cell>, j: int, r: int, t: int)
    requires
        0 <= r < t <= 8,
    ensures
        (pack_bits(cells, j, t) / pow2(r as nat) as int) % 2 == cell_bit(cells, 8 * j + r),
    decreases t,
{
    let pr = pow2(r as nat) as int;
    vstd::arithmetic::power2::lemma_pow2_pos(r as nat);
    if t == r + 1 {
        let a = pack_bits(cells, j, r);
        let b = cell_bit(cells, 8 * j + r);
        lemma_pack_bits_bound(cells, j, r);
        lemma_hoist_over_denominator(a, b, pr as nat);
        assert(a / pr + b == (a + b * pr) / pr);
        lemma_basic_div(a, pr);
        assert(a / pr == 0);
        assert((pack_bits(cells, j, t) / pr) == b);
        lemma_small_mod(b as nat, 2);
    } else {
        lemma_pack_bit_extract(cells, j, r, t - 1);
        let a = pack_bits(cells, j, t - 1);
        let b = cell_bit(cells, 8 * j + (t - 1));
        let q = a / pr;
        assert(pow2((t - 1) as nat) == pow2(((t - 1 - r)) as nat) * pow2(r as nat)) by {
            lemma_pow2_adds((t - 1 - r) as nat, r as nat);
        }
        let m = pow2((t - 1 - r) as nat) as int;
        lemma_mul_is_associative(b, m, pr);
        assert(b * pow2((t - 1) as nat) == (b * m) * pr);
        lemma_hoist_over_denominator(a, b * m, pr as nat);
        assert(pack_bits(cells, j, t) / pr == q + b * m);
        assert(m == 2 * pow2((t - 2 - r) as nat)) by {
            lemma_pow2_adds(1, (t - 2 - r) as nat);
            lemma2_to64();
        }
        assert(b * m == 2 * (b * pow2((t - 2 - r) as nat))) by (nonlinear_arith)
            requires
                m == 2 * pow2((t - 2 - r) as nat),
        ;
        lemma_mod_multiples_vanish(b * pow2((t - 2 - r) as nat) as int, q, 2);
        assert((q + b * m) % 2 == q % 2);
    }
}

/// Splitting the packed length into whole and partial bytes.
pub proof fn lemma_packed_len_split(n: int)
    requires
        n >= 0,
    ensures
        packed_len(n) == n / 8 + if n % 8 > 0 {
            1int
        } else {
            0int
        },
{
    lemma_fundamental_div_mod(n, 8);
    let q = n / 8;
    let r = n % 8;
    lemma_hoist_over_denominator(r + 7, q, 8);
    assert((r + 7) / 8 + q == (r + 7 + q * 8) / 8);
    assert(q * 8 == 8 * q) by (nonlinear_arith);
    assert(n + 7 == r + 7 + q * 8);
}

/// The byte a cell's bit lands in lies within the packed data.
pub proof fn lemma_bit_index_in_packed(n: int, i: int)
    requires
        0 <= i < n,
    ensures
        0 <= i / 8 < packed_len(n),
{
    vstd::arithmetic::div_mod::lemma_div_is_ordered(i, n - 1, 8);
    vstd::arithmetic::div_mod::lemma_div_pos_is_pos(i, 8);
    lemma_hoist_over_denominator(n - 1, 1, 8);
    assert((n - 1) / 8 + 1 == (n - 1 + 1 * 8) / 8);
}

/// Every packed byte starts at a bit within the cell stream.
pub proof fn lemma_packed_base_bound(n: int, j: int)
    requires
        n >= 0,
        0 <= j < packed_len(n),
    ensures
        8 * j <= n - 1,
{
    lemma_fundamental_div_mod(n + 7, 8);
    lemma_mul_inequality(j, packed_len(n) - 1, 8);
    assert(j * 8 == 8 * j) by (nonlinear_arith);
    assert((packed_len(n) - 1) * 8 == 8 * packed_len(n) - 8) by (nonlinear_arith);
    assert(8 * packed_len(n) <= n + 7);
}

/// The power of two a bit position selects, as a byte.
fn pow2_u8(k: usize) -> (r: u8)
    requires
        k < 8,
    ensures
        r as int == pow2(k as nat),
        r >= 1,
{
    proof {
        lemma2_to64();
    }
    match k {
        0 => 1,
        1 => 2,
        2 => 4,
        3 => 8,
        4 => 16,
        5 => 32,
        6 => 64,
        _ => 128,
    }
}

/// Appends the eight little-endian bytes of `v`.
fn push_u64_le(out: &mut Vec<u8>, v: u64)
    ensures
        final(out)@ == old(out)@ + le_bytes(v as int, 8),
{
    let b0 = (v % 256) as u8;
    let b1 = ((v / 256) % 256) as u8;
    let b2 = ((v / 65536) % 256) as u8;
    let b3 = ((v / 16777216) % 256) as u8;
    let b4 = ((v / 4294967296) % 256) as u8;
    let b5 = ((v / 1099511627776) % 256) as u8;
    let b6 = ((v / 281474976710656) % 256) as u8;
    let b7 = ((v / 72057594037927936) % 256) as u8;
    out.push(b0);
    out.push(b1);
    out.push(b2);
    out.push(b3);
    out.push(b4);
    out.push(b5);
    out.push(b6);
    out.push(b7);
    proof {
        reveal(pow);
        assert(pow(256, 0) == 1);
        assert(pow(256, 1) == 256);
        assert(pow(256, 2) == 65536);
        assert(pow(256, 3) == 16777216);
        assert(pow(256, 4) == 4294967296);
        assert(pow(256, 5) == 1099511627776);
        assert(pow(256, 6) == 281474976710656);
        assert(pow(256, 7) == 72057594037927936);
        assert(out@ =~= old(out)@ + le_bytes(v as int, 8));
    }
}

/// Reads the eight bytes at `off` as a little-endian value.
fn read_u64_le(bytes: &[u8], off: usize) -> (r: u64)
    requires
        off + 8 <= bytes@.len(),
    ensures
        r as int == le_val(bytes@, off as int, 8),
{
    let b0 = bytes[off] as u64;
    let b1 = bytes[off + 1] as u64;
    let b2 = bytes[off + 2] as u64;
    let b3 = bytes[off + 3] as u64;
    let b4 = bytes[off + 4] as u64;
    let b5 = bytes[off + 5] as u64;
    let b6 = bytes[off + 6] as u64;
    let b7 = bytes[off + 7] as u64;
    let r = b0 + 256 * (b1 + 256 * (b2 + 256 * (b3 + 256 * (b4 + 256 * (b5 + 256 * (b6 + 256
        * b7))))));
    proof {
        reveal(pow);
        assert(pow(256, 0) == 1);
        assert(pow(256, 1) == 256);
        assert(pow(256, 2) == 65536);
        assert(pow(256, 3) == 16777216);
        assert(pow(256, 4) == 4294967296);
        assert(pow(256, 5) == 1099511627776);
        assert(pow(256, 6) == 281474976710656);
        assert(pow(256, 7) == 72057594037927936);
        assert(le_val(bytes@, off as int, 1) == le_val(bytes@, off as int, 0) + bytes@[off as int]
            * pow(256, 0));
        assert(le_val(bytes@, off as int, 2) == le_val(bytes@, off as int, 1) + bytes@[off + 1]
            * pow(256, 1));
        assert(le_val(bytes@, off as int, 3) == le_val(bytes@, off as int, 2) + bytes@[off + 2]
            * pow(256, 2));
        assert(le_val(bytes@, off as int, 4) == le_val(bytes@, off as int, 3) + bytes@[off + 3]
            * pow(256, 3));
        assert(le_val(bytes@, off as int, 5) == le_val(bytes@, off as int, 4) + bytes@[off + 4]
            * pow(256, 4));
        assert(le_val(bytes@, off as int, 6) == le_val(bytes@, off as int, 5) + bytes@[off + 5]
            * pow(256, 5));
        assert(le_val(bytes@, off as int, 7) == le_val(bytes@, off as int, 6) + bytes@[off + 6]
            * pow(256, 6));
        assert(le_val(bytes@, off as int, 8) == le_val(bytes@, off as int, 7) + bytes@[off + 7]
            * pow(256, 7));
    }
    r
}

/// Encodes a board: its width and height as 64-bit little-endian fields,
/// then every cell as one bit in linear order, least-significant bit
/// first, the final byte zero-padded.
pub fn encode(board: &Board) -> (r: Vec<u8>)
    requires
        board_ok(board),
    ensures
        r@ == encode_bytes(bwidth(board), bheight(board), bcells(board)),
{
    let w = board.width();
    let h = board.height();
    let ghost cells = bcells(board);
    let mut out: Vec<u8> = Vec::new();
    push_u64_le(&mut out, w as u64);
    push_u64_le(&mut out, h as u64);
    let ghost header = out@;
    let data = board.data();
    let n = data.len();
    let plen = n / 8 + if n % 8 > 0 {
        1
    } else {
        0
    };
    proof {
        lemma_packed_len_split(n as int);
        assert(plen == packed_len(cells.len() as int));
    }
    let mut j: usize = 0;
    while j < plen
        invariant
            data@ == cells,
            n == cells.len(),
            plen == packed_len(cells.len() as int),
            header.len() == 16,
            0 <= j <= plen,
            out@.len() == 16 + j,
            out@.subrange(0, 16) == header,
            forall|jj: int| 0 <= jj < j ==> out@[16 + jj] == pack_byte(cells, jj) as u8,
        decreases plen - j,
    {
        proof {
            lemma_packed_base_bound(n as int, j as int);
        }
        let base = 8 * j;
        let mut byte: u8 = 0;
        let mut t: usize = 0;
        while t < 8
            invariant
                data@ == cells,
                n == cells.len(),
                base == 8 * j,
                base <= n - 1,
                0 <= t <= 8,
                byte as int == pack_bits(cells, j as int, t as int),
            decreases 8 - t,
        {
            proof {
                lemma_pack_bits_bound(cells, j as int, t as int);
                lemma2_to64();
            }
            if t < n - base {
                if data[base + t] == Cell::Alive {
                    let p = pow2_u8(t);
                    proof {
                        vstd::arithmetic::power2::lemma_pow2_adds(1, t as nat);
                        if t + 1 < 8 {
                            vstd::arithmetic::power2::lemma_pow2_strictly_increases(
                                (t + 1) as nat,
                                8,
                            );
                        }
                        assert(byte + p < 256);
                    }
                    byte = byte + p;
                }
            }
            proof {
                assert(cell_bit(cells, 8 * (j as int) + t as int) == (if base + t < n && cells[base
                    + t] == Cell::Alive {
                    1int
                } else {
                    0int
                }));
                assert(byte as int == pack_bits(cells, j as int, t + 1));
            }
            t = t + 1;
        }
        out.push(byte);
        j = j + 1;
    }
    proof {
        assert(out@ =~= encode_bytes(bwidth(board), bheight(board), cells));
    }
    out
}

/// Decodes a byte sequence into a board. It is refused when it is too
/// short for the two size fields, when the sizes it names do not fit this
/// machine, and when it is shorter than the packed cell data those sizes
/// demand.
pub fn decode(bytes: &[u8]) -> (r: Result<Board, FormatError>)
    ensures
        !header_ok(bytes@) ==> r == Err::<Board, FormatError>(FormatError::Truncated),
        header_ok(bytes@) && !sizes_fit(bytes@) ==> r == Err::<Board, FormatError>(
            FormatError::Oversize,
        ),
        header_ok(bytes@) && sizes_fit(bytes@) && !data_ok(bytes@) ==> r == Err::<
            Board,
            FormatError,
        >(FormatError::Truncated),
        header_ok(bytes@) && sizes_fit(bytes@) && data_ok(bytes@) ==> (r matches Ok(b) && {
            &&& board_ok(&b)
            &&& bwidth(&b) == decode_width(bytes@)
            &&& bheight(&b) == decode_height(bytes@)
            &&& bcells(&b) == decode_cells(bytes@)
        }),
{
    let len = bytes.len();
    if len < 16 {
        return Err(FormatError::Truncated);
    }
    let w64 = read_u64_le(bytes, 0);
    let h64 = read_u64_le(bytes, 8);
    if w64 > usize::MAX as u64 || h64 > usize::MAX as u64 {
        return Err(FormatError::Oversize);
    }
    let w = w64 as usize;
    let h = h64 as usize;
    proof {
        assert((w as u128) * (h as u128) <= u128::MAX) by (nonlinear_arith)
            requires
                0 <= (w as u128) < 0x10000000000000000,
                0 <= (h as u128) < 0x10000000000000000,
        ;
    }
    let wh = (w as u128) * (h as u128);
    if wh > usize::MAX as u128 {
        return Err(FormatError::Oversize);
    }
    let n = w * h;
    let plen = n / 8 + if n % 8 > 0 {
        1
    } else {
        0
    };
    proof {
        lemma_packed_len_split(n as int);
    }
    if len - 16 < plen {
        return Err(FormatError::Truncated);
    }
    let ghost bs = bytes@;
    let mut cells: Vec<Cell> = Vec::new();
    let mut i: usize = 0;
    while i < n
        invariant
            bs == bytes@,
            n == decode_width(bs) * decode_height(bs),
            plen == packed_len(n as int),
            16 + plen <= bs.len() <= usize::MAX,
            0 <= i <= n,
            cells@.len() == i,
            forall|k: int| 0 <= k < i ==> cells@[k] == decoded_cell(bs, k),
        decreases n - i,
    {
        proof {
            lemma_bit_index_in_packed(n as int, i as int);
        }
        let bi = i / 8;
        let byte = bytes[16 + bi];
        let p = pow2_u8(i % 8);
        let bit = (byte / p) % 2;
        cells.push(
            if bit == 1 {
                Cell::Alive
            } else {
                Cell::Dead
            },
        );
        proof {
            assert(cells@[i as int] == decoded_cell(bs, i as int));
        }
        i = i + 1;
    }
    proof {
        crate::dyn_array::lemma_dims_product_2([w, h]@);
        assert(cells@ =~= decode_cells(bs));
    }
    let b = Board::new_from_data([w, h], cells);
    proof {
        lemma_board_ok(&b);
    }
    Ok(b)
}

/// Decoding an encoded board recovers its dimensions and its cells
/// exactly: the codec round-trips.
pub proof fn lemma_encode_decode_round_trip(b: &Board)
    requires
        board_ok(b),
    ensures
        ({
            let e = encode_bytes(bwidth(b), bheight(b), bcells(b));
            &&& header_ok(e)
            &&& sizes_fit(e)
            &&& data_ok(e)
            &&& decode_width(e) == bwidth(b)
            &&& decode_height(e) == bheight(b)
            &&& decode_cells(e) == bcells(b)
        }),
{
    let w = bwidth(b);
    let h = bheight(b);
    let cells = bcells(b);
    let e = encode_bytes(w, h, cells);
    b.lemma_data_len_bound();
    assert(e.len() == 16 + packed_len(cells.len() as int));
    assert forall|t: int| 0 <= t < 8 implies e[0 + t] == #[trigger] le_bytes(w, 8)[t] by {
        assert(e[t] == le_bytes(w, 8)[t]);
    }
    lemma_le_val_congruent(e, le_bytes(w, 8), 0, 0, 8);
    lemma_le_val_le_bytes(w, 8);
    assert forall|t: int| 0 <= t < 8 implies e[8 + t] == #[trigger] le_bytes(h, 8)[t] by {
        assert(e[8 + t] == le_bytes(h, 8)[t]);
    }
    lemma_le_val_congruent(e, le_bytes(h, 8), 8, 0, 8);
    lemma_le_val_le_bytes(h, 8);
    assert(pow(256, 8) == 0x10000000000000000) by {
        reveal(pow);
        assert(pow(256, 0) == 1);
        assert(pow(256, 1) == 256);
        assert(pow(256, 2) == 65536);
        assert(pow(256, 3) == 16777216);
        assert(pow(256, 4) == 4294967296);
        assert(pow(256, 5) == 1099511627776);
        assert(pow(256, 6) == 281474976710656);
        assert(pow(256, 7) == 72057594037927936);
    }
    lemma_small_mod(w as nat, pow(256, 8) as nat);
    lemma_small_mod(h as nat, pow(256, 8) as nat);
    assert(decode_width(e) == w);
    assert(decode_height(e) == h);
    assert(cells.len() == w * h);
    assert(sizes_fit(e));
    assert(data_ok(e));
    lemma2_to64();
    assert forall|i: int| 0 <= i < w * h implies decoded_cell(e, i) == cells[i] by {
        lemma_bit_index_in_packed(cells.len() as int, i);
        let j = i / 8;
        let r = i % 8;
        assert(e[16 + j] == pack_byte(cells, j) as u8);
        lemma_pack_bits_bound(cells, j, 8);
        assert((pack_byte(cells, j) as u8) as int == pack_byte(cells, j));
        lemma_pack_bit_extract(cells, j, r, 8);
        lemma_fundamental_div_mod(i, 8);
        assert(8 * j + r == i);
        assert(bit_at(e, i) == cell_bit(cells, i));
    }
    assert(decode_cells(e) =~= cells);
}

} // verus!
