//! Compact binary encoding of placement lists: a two-byte big-endian count,
//! then nine bits per placement for the point index (most significant bit
//! first, padded to a byte boundary), then one color bit per placement
//! (padded likewise).
use crate::board::{valid_position, Color, Placement, Point, BOARD_SIZE};
use vstd::arithmetic::div_mod::{
    lemma_div_is_ordered, lemma_fundamental_div_mod, lemma_fundamental_div_mod_converse,
    lemma_mod_breakdown,
};
use vstd::prelude::*;

verus! {

pub open spec fn bit_int(b: bool) -> int {
    if b {
        1
    } else {
        0
    }
}

/// The 0..361 index of a point, row-major.
pub open spec fn point_index(p: Placement) -> int {
    p.point.x * (BOARD_SIZE as int) + p.point.y
}

/// Weight of the j-th bit of a 9-bit value, most significant bit first.
pub open spec fn weight9(j: int) -> int {
    if j == 0 {
        256
    } else if j == 1 {
        128
    } else if j == 2 {
        64
    } else if j == 3 {
        32
    } else if j == 4 {
        16
    } else if j == 5 {
        8
    } else if j == 6 {
        4
    } else if j == 7 {
        2
    } else {
        1
    }
}

/// Weight of the j-th bit of a byte, most significant bit first.
pub open spec fn weight8(j: int) -> int {
    weight9(j + 1)
}

/// The j-th bit (most significant first) of a placement's point index.
pub open spec fn point_bit(p: Placement, j: int) -> bool {
    (point_index(p) / weight9(j)) % 2 == 1
}

/// The bit stream of all point indices, nine bits per placement.
pub open spec fn point_bits(s: Seq<Placement>) -> Seq<bool> {
    Seq::new((s.len() * 9) as nat, |i: int| point_bit(s[i / 9], i % 9))
}

/// One bit per placement: set for Black, clear for White.
pub open spec fn color_bits(s: Seq<Placement>) -> Seq<bool> {
    Seq::new(s.len(), |i: int| s[i].color == Color::Black)
}

/// A bit of a stream, reading absent padding positions as clear.
pub open spec fn bit_at(bits: Seq<bool>, i: int) -> bool {
    0 <= i < bits.len() && bits[i]
}

pub open spec fn byte_of_bits(bits: Seq<bool>, k: int) -> u8 {
    (128 * bit_int(bit_at(bits, 8 * k)) + 64 * bit_int(bit_at(bits, 8 * k + 1)) + 32 * bit_int(
        bit_at(bits, 8 * k + 2),
    ) + 16 * bit_int(bit_at(bits, 8 * k + 3)) + 8 * bit_int(bit_at(bits, 8 * k + 4)) + 4 * bit_int(
        bit_at(bits, 8 * k + 5),
    ) + 2 * bit_int(bit_at(bits, 8 * k + 6)) + bit_int(bit_at(bits, 8 * k + 7))) as u8
}

/// The bit stream grouped into bytes, most significant bit first, padded
/// with clear bits to a byte boundary.
pub open spec fn bytes_of_bits(bits: Seq<bool>) -> Seq<u8> {
    Seq::new(((bits.len() + 7) / 8) as nat, |k: int| byte_of_bits(bits, k))
}

/// The exact byte image of a packed placement list.
pub open spec fn spec_pack_placements(s: Seq<Placement>) -> Seq<u8> {
    seq![(s.len() / 256) as u8, (s.len() % 256) as u8] + bytes_of_bits(point_bits(s))
        + bytes_of_bits(color_bits(s))
}

/// The placement count announced by a packed blob's first two bytes.
pub open spec fn packed_count(packed: Seq<u8>) -> int {
    packed[0] * 256 + packed[1]
}

/// Total bytes occupied by a packed list of n placements.
pub open spec fn packed_total_len(n: int) -> int {
    2 + (9 * n + 7) / 8 + (n + 7) / 8
}

/// A blob is long enough to hold everything its count announces.
pub open spec fn placements_blob_ok(packed: Seq<u8>) -> bool {
    packed.len() >= 2 && packed.len() >= packed_total_len(packed_count(packed))
}

/// The i-th point bit of a packed blob.
pub open spec fn blob_point_bit(packed: Seq<u8>, i: int) -> bool {
    (packed[2 + i / 8] as int / weight8(i % 8)) % 2 == 1
}

/// The i-th color bit of a packed blob holding n placements.
pub open spec fn blob_color_bit(packed: Seq<u8>, n: int, i: int) -> bool {
    (packed[2 + (9 * n + 7) / 8 + i / 8] as int / weight8(i % 8)) % 2 == 1
}

pub open spec fn decoded_point_value(packed: Seq<u8>, i: int) -> int {
    256 * bit_int(blob_point_bit(packed, 9 * i)) + 128 * bit_int(blob_point_bit(packed, 9 * i + 1))
        + 64 * bit_int(blob_point_bit(packed, 9 * i + 2)) + 32 * bit_int(
        blob_point_bit(packed, 9 * i + 3),
    ) + 16 * bit_int(blob_point_bit(packed, 9 * i + 4)) + 8 * bit_int(
        blob_point_bit(packed, 9 * i + 5),
    ) + 4 * bit_int(blob_point_bit(packed, 9 * i + 6)) + 2 * bit_int(
        blob_point_bit(packed, 9 * i + 7),
    ) + bit_int(blob_point_bit(packed, 9 * i + 8))
}

pub open spec fn decoded_placement(packed: Seq<u8>, n: int, i: int) -> Placement {
    Placement {
        color: if blob_color_bit(packed, n, i) {
            Color::Black
        } else {
            Color::White
        },
        point: Point {
            x: (decoded_point_value(packed, i) / (BOARD_SIZE as int)) as u8,
            y: (decoded_point_value(packed, i) % (BOARD_SIZE as int)) as u8,
        },
    }
}

/// The placement list a packed blob decodes to.
pub open spec fn spec_unpack_placements(packed: Seq<u8>) -> Seq<Placement> {
    Seq::new(packed_count(packed) as nat, |i: int| decoded_placement(packed, packed_count(packed), i))
}

/// A flat bit index of stride nine splits back into its placement and
/// bit offsets.
proof fn lemma_flat_index9(i: int, j: int)
    requires
        0 <= i,
        0 <= j < 9,
    ensures
        (9 * i + j) / 9 == i,
        (9 * i + j) % 9 == j,
{
    lemma_fundamental_div_mod_converse(9 * i + j, 9, i, j);
}

/// A flat bit index of stride eight splits back into its byte and bit
/// offsets.
proof fn lemma_flat_index8(i: int, j: int)
    requires
        0 <= i,
        0 <= j < 8,
    ensures
        (8 * i + j) / 8 == i,
        (8 * i + j) % 8 == j,
{
    lemma_fundamental_div_mod_converse(8 * i + j, 8, i, j);
}

/// A value decomposed over a power of two: the quotient's parity is the
/// chosen bit.
proof fn lemma_extract_bit(x: int, hi: int, b: int, lo: int, w: int)
    requires
        0 < w,
        0 <= lo < w,
        b == 0 || b == 1,
        0 <= hi,
        x == hi * (2 * w) + b * w + lo,
    ensures
        (x / w) % 2 == b,
{
    assert((2 * hi + b) * w == hi * (2 * w) + b * w) by (nonlinear_arith);
    lemma_fundamental_div_mod_converse(x, w, 2 * hi + b, lo);
    lemma_fundamental_div_mod_converse(2 * hi + b, 2, hi, b);
}

/// Reading bit i back from the byte grouping of a bit stream gives the
/// stream's own bit.
#[verifier::rlimit(100)]
proof fn lemma_byte_bit(bits: Seq<bool>, i: int)
    requires
        0 <= i < bits.len(),
    ensures
        (byte_of_bits(bits, i / 8) as int / weight8(i % 8)) % 2 == bit_int(bit_at(bits, i)),
{
    let k = i / 8;
    let j = i % 8;
    lemma_fundamental_div_mod(i, 8);
    let b0 = bit_int(bit_at(bits, 8 * k));
    let b1 = bit_int(bit_at(bits, 8 * k + 1));
    let b2 = bit_int(bit_at(bits, 8 * k + 2));
    let b3 = bit_int(bit_at(bits, 8 * k + 3));
    let b4 = bit_int(bit_at(bits, 8 * k + 4));
    let b5 = bit_int(bit_at(bits, 8 * k + 5));
    let b6 = bit_int(bit_at(bits, 8 * k + 6));
    let b7 = bit_int(bit_at(bits, 8 * k + 7));
    let v = 128 * b0 + 64 * b1 + 32 * b2 + 16 * b3 + 8 * b4 + 4 * b5 + 2 * b6 + b7;
    assert(0 <= v <= 255);
    assert(byte_of_bits(bits, k) as int == v);
    assert(i == 8 * k + j);
    if j == 0 {
        lemma_extract_bit(v, 0, b0, 64 * b1 + 32 * b2 + 16 * b3 + 8 * b4 + 4 * b5 + 2 * b6 + b7, 128);
    } else if j == 1 {
        lemma_extract_bit(v, b0, b1, 32 * b2 + 16 * b3 + 8 * b4 + 4 * b5 + 2 * b6 + b7, 64);
    } else if j == 2 {
        lemma_extract_bit(v, 2 * b0 + b1, b2, 16 * b3 + 8 * b4 + 4 * b5 + 2 * b6 + b7, 32);
    } else if j == 3 {
        lemma_extract_bit(v, 4 * b0 + 2 * b1 + b2, b3, 8 * b4 + 4 * b5 + 2 * b6 + b7, 16);
    } else if j == 4 {
        lemma_extract_bit(v, 8 * b0 + 4 * b1 + 2 * b2 + b3, b4, 4 * b5 + 2 * b6 + b7, 8);
    } else if j == 5 {
        lemma_extract_bit(v, 16 * b0 + 8 * b1 + 4 * b2 + 2 * b3 + b4, b5, 2 * b6 + b7, 4);
    } else if j == 6 {
        lemma_extract_bit(v, 32 * b0 + 16 * b1 + 8 * b2 + 4 * b3 + 2 * b4 + b5, b6, b7, 2);
    } else {
        lemma_extract_bit(v, 64 * b0 + 32 * b1 + 16 * b2 + 8 * b3 + 4 * b4 + 2 * b5 + b6, b7, 0, 1);
    }
}

fn get_bit(bits: &Vec<bool>, i: usize) -> (b: bool)
    ensures
        b == bit_at(bits@, i as int),
{
    if i < bits.len() {
        bits[i]
    } else {
        false
    }
}

/// Groups a bit stream into bytes, most significant bit first, padding the
/// final byte with clear bits.
fn bits_to_bytes(bits: &Vec<bool>) -> (r: Vec<u8>)
    requires
        bits@.len() + 7 <= usize::MAX,
    ensures
        r@ == bytes_of_bits(bits@),
{
    let total = (bits.len() + 7) / 8;
    let mut r: Vec<u8> = Vec::new();
    let mut k: usize = 0;
    while k < total
        invariant
            total == (bits@.len() + 7) / 8,
            bits@.len() + 7 <= usize::MAX,
            k <= total,
            r@.len() == k,
            forall|t: int| 0 <= t < k ==> r@[t] == byte_of_bits(bits@, t),
        decreases total - k,
    {
        proof {
            assert(8 * (k as int) + 7 < bits@.len() + 8) by {
                lemma_div_is_ordered(8 * (k as int), bits@.len() as int + 7, 8);
                lemma_flat_index8(k as int, 0);
            }
        }
        let base = 8 * k;
        let byte: u8 = (if get_bit(bits, base) {
            128
        } else {
            0
        }) + (if get_bit(bits, base + 1) {
            64
        } else {
            0
        }) + (if get_bit(bits, base + 2) {
            32
        } else {
            0
        }) + (if get_bit(bits, base + 3) {
            16
        } else {
            0
        }) + (if get_bit(bits, base + 4) {
            8
        } else {
            0
        }) + (if get_bit(bits, base + 5) {
            4
        } else {
            0
        }) + (if get_bit(bits, base + 6) {
            2
        } else {
            0
        }) + (if get_bit(bits, base + 7) {
            1
        } else {
            0
        });
        proof {
            assert(byte == byte_of_bits(bits@, k as int));
        }
        r.push(byte);
        k = k + 1;
    }
    proof {
        assert(r@ =~= bytes_of_bits(bits@));
    }
    r
}

/// Packs a placement list into its byte image: a two-byte big-endian
/// count, the nine-bit point indices, then the color bits.
#[verifier::rlimit(100)]
pub fn pack_placements(placements: &[Placement]) -> (r: Vec<u8>)
    requires
        valid_position(placements@),
        placements@.len() <= 65535,
    ensures
        r@ == spec_pack_placements(placements@),
{
    let n = placements.len();
    let mut r: Vec<u8> = Vec::new();
    r.push((n / 256) as u8);
    r.push((n % 256) as u8);

    let mut bits: Vec<bool> = Vec::new();
    let mut i: usize = 0;
    while i < n
        invariant
            n == placements@.len() <= 65535,
            valid_position(placements@),
            i <= n,
            bits@.len() == 9 * i,
            forall|t: int| 0 <= t < 9 * i ==> bits@[t] == point_bits(placements@)[t],
        decreases n - i,
    {
        let p = placements[i];
        let idx: u16 = (p.point.x as u16) * (BOARD_SIZE as u16) + (p.point.y as u16);
        let ghost prev = bits@;
        bits.push(idx / 256 % 2 == 1);
        bits.push(idx / 128 % 2 == 1);
        bits.push(idx / 64 % 2 == 1);
        bits.push(idx / 32 % 2 == 1);
        bits.push(idx / 16 % 2 == 1);
        bits.push(idx / 8 % 2 == 1);
        bits.push(idx / 4 % 2 == 1);
        bits.push(idx / 2 % 2 == 1);
        bits.push(idx % 2 == 1);
        proof {
            assert(idx as int == point_index(placements@[i as int]));
            assert forall|t: int| 9 * i <= t < 9 * i + 9 implies bits@[t] == point_bits(
                placements@,
            )[t] by {
                lemma_flat_index9(i as int, t - 9 * i);
            }
        }
        i = i + 1;
    }
    proof {
        assert(bits@ =~= point_bits(placements@));
    }
    let mut pb = bits_to_bytes(&bits);

    let mut cbits: Vec<bool> = Vec::new();
    let mut i: usize = 0;
    while i < n
        invariant
            n == placements@.len(),
            i <= n,
            cbits@.len() == i,
            forall|t: int| 0 <= t < i ==> cbits@[t] == color_bits(placements@)[t],
        decreases n - i,
    {
        cbits.push(placements[i].color == Color::Black);
        i = i + 1;
    }
    proof {
        assert(cbits@ =~= color_bits(placements@));
    }
    let mut cb = bits_to_bytes(&cbits);

    r.append(&mut pb);
    r.append(&mut cb);
    proof {
        assert(r@ =~= spec_pack_placements(placements@));
    }
    r
}

fn weight_of(j: usize) -> (w: u8)
    requires
        j < 8,
    ensures
        w as int == weight8(j as int),
{
    if j == 0 {
        128
    } else if j == 1 {
        64
    } else if j == 2 {
        32
    } else if j == 3 {
        16
    } else if j == 4 {
        8
    } else if j == 5 {
        4
    } else if j == 6 {
        2
    } else {
        1
    }
}

/// Reads one bit of the bit region that starts at byte offset `base`.
fn read_bit(packed: &[u8], base: usize, bitpos: usize) -> (b: bool)
    requires
        base + bitpos / 8 < packed@.len(),
    ensures
        b == ((packed@[base + bitpos / 8] as int / weight8(bitpos as int % 8)) % 2 == 1),
{
    let plen = packed.len();
    let byte = packed[base + bitpos / 8];
    let w = weight_of(bitpos % 8);
    byte / w % 2 == 1
}

/// Reads back the i-th placement of a packed blob.
#[verifier::rlimit(100)]
fn read_placement(packed: &[u8], n: usize, i: usize) -> (p: Placement)
    requires
        n == packed_count(packed@),
        placements_blob_ok(packed@),
        i < n,
    ensures
        p == decoded_placement(packed@, n as int, i as int),
{
    let color_base = 2 + (9 * n + 7) / 8;
    proof {
        assert((9 * (i as int) + 8) / 8 < (9 * (n as int) + 7) / 8) by {
            lemma_div_is_ordered(9 * (i as int) + 8, 9 * (n as int) - 1, 8);
            lemma_fundamental_div_mod(9 * (n as int) - 1, 8);
            lemma_fundamental_div_mod_converse(
                9 * (n as int) + 7,
                8,
                (9 * (n as int) - 1) / 8 + 1,
                (9 * (n as int) - 1) % 8,
            );
        }
        assert forall|j: int| 0 <= j < 9 implies #[trigger] ((9 * (i as int) + j) / 8) <= (9 * (
        i as int) + 8) / 8 by {
            lemma_div_is_ordered(9 * (i as int) + j, 9 * (i as int) + 8, 8);
        }
        assert((i as int) / 8 < (n as int + 7) / 8) by {
            lemma_div_is_ordered(i as int, n as int - 1, 8);
            lemma_fundamental_div_mod(n as int - 1, 8);
            lemma_fundamental_div_mod_converse(
                n as int + 7,
                8,
                (n as int - 1) / 8 + 1,
                (n as int - 1) % 8,
            );
        }
    }
    let b0 = read_bit(packed, 2, 9 * i);
    let b1 = read_bit(packed, 2, 9 * i + 1);
    let b2 = read_bit(packed, 2, 9 * i + 2);
    let b3 = read_bit(packed, 2, 9 * i + 3);
    let b4 = read_bit(packed, 2, 9 * i + 4);
    let b5 = read_bit(packed, 2, 9 * i + 5);
    let b6 = read_bit(packed, 2, 9 * i + 6);
    let b7 = read_bit(packed, 2, 9 * i + 7);
    let b8 = read_bit(packed, 2, 9 * i + 8);
    let v: u16 = (if b0 {
        256
    } else {
        0
    }) + (if b1 {
        128
    } else {
        0
    }) + (if b2 {
        64
    } else {
        0
    }) + (if b3 {
        32
    } else {
        0
    }) + (if b4 {
        16
    } else {
        0
    }) + (if b5 {
        8
    } else {
        0
    }) + (if b6 {
        4
    } else {
        0
    }) + (if b7 {
        2
    } else {
        0
    }) + (if b8 {
        1
    } else {
        0
    });
    let cbit = read_bit(packed, color_base, i);
    let color = if cbit {
        Color::Black
    } else {
        Color::White
    };
    proof {
        assert(v as int == decoded_point_value(packed@, i as int));
    }
    let x = (v / (BOARD_SIZE as u16)) as u8;
    let y = (v % (BOARD_SIZE as u16)) as u8;
    Placement { color, point: Point { x, y } }
}

/// Unpacks a placement list from the front of a byte blob, returning the
/// placements and how many bytes they occupied.
pub fn unpack_placements(packed: &[u8]) -> (r: (Vec<Placement>, usize))
    requires
        placements_blob_ok(packed@),
    ensures
        r.0@ == spec_unpack_placements(packed@),
        r.1 == packed_total_len(packed_count(packed@)),
{
    let n: usize = (packed[0] as usize) * 256 + (packed[1] as usize);
    let total = 2 + (9 * n + 7) / 8 + (n + 7) / 8;
    let mut out: Vec<Placement> = Vec::new();
    let mut i: usize = 0;
    while i < n
        invariant
            n == packed_count(packed@),
            placements_blob_ok(packed@),
            total == packed_total_len(n as int),
            i <= n,
            out@.len() == i,
            forall|t: int| 0 <= t < i ==> out@[t] == decoded_placement(packed@, n as int, t),
        decreases n - i,
    {
        let p = read_placement(packed, n, i);
        out.push(p);
        i = i + 1;
    }
    proof {
        assert(out@ =~= spec_unpack_placements(packed@));
    }
    (out, total)
}

/// Unpacking inverts packing: a valid placement list of at most 65535
/// entries comes back exactly, and the announced byte span is the blob's
/// whole length.
pub proof fn lemma_placements_round_trip(s: Seq<Placement>)
    requires
        valid_position(s),
        s.len() <= 65535,
    ensures
        spec_pack_placements(s).len() == packed_total_len(s.len() as int),
        placements_blob_ok(spec_pack_placements(s)),
        packed_count(spec_pack_placements(s)) == s.len(),
        spec_unpack_placements(spec_pack_placements(s)) == s,
{
    let packed = spec_pack_placements(s);
    let n = s.len() as int;
    let pb = bytes_of_bits(point_bits(s));
    let cb = bytes_of_bits(color_bits(s));
    assert(packed.len() == 2 + pb.len() + cb.len());
    lemma_fundamental_div_mod_converse(n, 256, n / 256, n % 256);
    assert(packed[0] == (n / 256) as u8 && packed[1] == (n % 256) as u8);
    lemma_fundamental_div_mod(n, 256);
    assert(packed_count(packed) == n);

    assert forall|i: int| 0 <= i < n implies decoded_placement(packed, n, i) == s[i] by {
        lemma_decode_one(s, i);
    }
    assert(spec_unpack_placements(packed) =~= s);
}

/// The i-th point bit of the packed image is the i-th bit of the point
/// bit stream.
proof fn lemma_blob_point_bit(s: Seq<Placement>, t: int)
    requires
        s.len() <= 65535,
        0 <= t < 9 * s.len(),
    ensures
        blob_point_bit(spec_pack_placements(s), t) == bit_at(point_bits(s), t),
{
    let packed = spec_pack_placements(s);
    let n = s.len() as int;
    let pbits = point_bits(s);
    let pb = bytes_of_bits(pbits);
    lemma_div_is_ordered(t, 9 * n - 1, 8);
    lemma_fundamental_div_mod(9 * n - 1, 8);
    lemma_fundamental_div_mod_converse(9 * n + 7, 8, (9 * n - 1) / 8 + 1, (9 * n - 1) % 8);
    assert(t / 8 < pb.len());
    lemma_fundamental_div_mod(t, 8);
    assert(packed[2 + t / 8] == pb[t / 8]);
    assert(pb[t / 8] == byte_of_bits(pbits, t / 8));
    lemma_byte_bit(pbits, t);
}

/// The i-th color bit of the packed image is the placement's color.
proof fn lemma_blob_color_bit(s: Seq<Placement>, i: int)
    requires
        s.len() <= 65535,
        0 <= i < s.len(),
    ensures
        blob_color_bit(spec_pack_placements(s), s.len() as int, i) == (s[i].color == Color::Black),
{
    let packed = spec_pack_placements(s);
    let n = s.len() as int;
    let cbits = color_bits(s);
    let pb = bytes_of_bits(point_bits(s));
    let cb = bytes_of_bits(cbits);
    lemma_div_is_ordered(i, n - 1, 8);
    lemma_fundamental_div_mod(n - 1, 8);
    lemma_fundamental_div_mod_converse(n + 7, 8, (n - 1) / 8 + 1, (n - 1) % 8);
    assert(i / 8 < cb.len());
    assert(pb.len() == (9 * n + 7) / 8);
    assert(packed[2 + (9 * n + 7) / 8 + i / 8] == cb[i / 8]);
    lemma_fundamental_div_mod(i, 8);
    lemma_byte_bit(cbits, i);
}

/// One placement decodes back from the packed image of its list.
#[verifier::rlimit(100)]
proof fn lemma_decode_one(s: Seq<Placement>, i: int)
    requires
        valid_position(s),
        s.len() <= 65535,
        0 <= i < s.len(),
    ensures
        decoded_placement(spec_pack_placements(s), s.len() as int, i) == s[i],
{
    let packed = spec_pack_placements(s);
    let n = s.len() as int;
    let idx = point_index(s[i]);
    assert(0 <= idx < 361);
    assert(bit_int(blob_point_bit(packed, 9 * i + 0)) == (idx / 256) % 2) by {
        lemma_flat_index9(i, 0);
        lemma_blob_point_bit(s, 9 * i + 0);
    }
    assert(bit_int(blob_point_bit(packed, 9 * i + 1)) == (idx / 128) % 2) by {
        lemma_flat_index9(i, 1);
        lemma_blob_point_bit(s, 9 * i + 1);
    }
    assert(bit_int(blob_point_bit(packed, 9 * i + 2)) == (idx / 64) % 2) by {
        lemma_flat_index9(i, 2);
        lemma_blob_point_bit(s, 9 * i + 2);
    }
    assert(bit_int(blob_point_bit(packed, 9 * i + 3)) == (idx / 32) % 2) by {
        lemma_flat_index9(i, 3);
        lemma_blob_point_bit(s, 9 * i + 3);
    }
    assert(bit_int(blob_point_bit(packed, 9 * i + 4)) == (idx / 16) % 2) by {
        lemma_flat_index9(i, 4);
        lemma_blob_point_bit(s, 9 * i + 4);
    }
    assert(bit_int(blob_point_bit(packed, 9 * i + 5)) == (idx / 8) % 2) by {
        lemma_flat_index9(i, 5);
        lemma_blob_point_bit(s, 9 * i + 5);
    }
    assert(bit_int(blob_point_bit(packed, 9 * i + 6)) == (idx / 4) % 2) by {
        lemma_flat_index9(i, 6);
        lemma_blob_point_bit(s, 9 * i + 6);
    }
    assert(bit_int(blob_point_bit(packed, 9 * i + 7)) == (idx / 2) % 2) by {
        lemma_flat_index9(i, 7);
        lemma_blob_point_bit(s, 9 * i + 7);
    }
    assert(bit_int(blob_point_bit(packed, 9 * i + 8)) == (idx / 1) % 2) by {
        lemma_flat_index9(i, 8);
        lemma_blob_point_bit(s, 9 * i + 8);
    }
    let v = decoded_point_value(packed, i);
    assert(idx / 1 == idx && idx % 1 == 0) by {
        lemma_fundamental_div_mod_converse(idx, 1, idx, 0);
    }
    lemma_value_from_bits(idx);
    assert(v == idx);
    lemma_fundamental_div_mod_converse(
        idx,
        BOARD_SIZE as int,
        s[i].point.x as int,
        s[i].point.y as int,
    );
    lemma_blob_color_bit(s, i);
    match s[i].color {
        Color::Black => {},
        Color::White => {},
    }
}

/// The stones a single move removed from the board, keyed by that move's
/// index in the game's move list.
#[derive(Debug, Clone, PartialEq, Eq)]
pub struct CaptureEntry {
    pub move_number: usize,
    pub stones: Vec<Placement>,
}

/// The mathematical content of a capture list: (move index, stones) pairs.
pub open spec fn captures_view(entries: Seq<CaptureEntry>) -> Seq<(int, Seq<Placement>)> {
    entries.map_values(|e: CaptureEntry| (e.move_number as int, e.stones@))
}

pub open spec fn valid_capture_pair(p: (int, Seq<Placement>)) -> bool {
    &&& 0 <= p.0 <= 65535
    &&& p.1.len() <= 65535
    &&& valid_position(p.1)
}

pub open spec fn valid_capture_pairs(v: Seq<(int, Seq<Placement>)>) -> bool {
    forall|i: int| 0 <= i < v.len() ==> valid_capture_pair(#[trigger] v[i])
}

/// The byte image of one capture entry: a two-byte big-endian move index,
/// then the packed stones.
pub open spec fn capture_entry_bytes(p: (int, Seq<Placement>)) -> Seq<u8> {
    seq![(p.0 / 256) as u8, (p.0 % 256) as u8] + spec_pack_placements(p.1)
}

pub open spec fn spec_pack_capture_entries(v: Seq<(int, Seq<Placement>)>) -> Seq<u8>
    decreases v.len(),
{
    if v.len() == 0 {
        Seq::empty()
    } else {
        capture_entry_bytes(v.first()) + spec_pack_capture_entries(v.drop_first())
    }
}

/// The exact byte image of a packed capture list.
pub open spec fn spec_pack_captures(v: Seq<(int, Seq<Placement>)>) -> Seq<u8> {
    seq![(v.len() / 256) as u8, (v.len() % 256) as u8] + spec_pack_capture_entries(v)
}

/// The byte length of the placement blob that starts at `off`.
pub open spec fn blob_len_at(bytes: Seq<u8>, off: int) -> int {
    packed_total_len(bytes[off] * 256 + bytes[off + 1])
}

/// There are k well-formed capture entries starting at `off`.
pub open spec fn capture_entries_ok(bytes: Seq<u8>, off: int, k: int) -> bool
    decreases k,
{
    if k <= 0 {
        0 <= off <= bytes.len()
    } else {
        &&& 0 <= off
        &&& off + 4 <= bytes.len()
        &&& off + 2 + blob_len_at(bytes, off + 2) <= bytes.len()
        &&& placements_blob_ok(bytes.subrange(off + 2, off + 2 + blob_len_at(bytes, off + 2)))
        &&& capture_entries_ok(bytes, off + 2 + blob_len_at(bytes, off + 2), k - 1)
    }
}

pub open spec fn spec_unpack_capture_entries(bytes: Seq<u8>, off: int, k: int) -> Seq<
    (int, Seq<Placement>),
>
    decreases k,
{
    if k <= 0 {
        Seq::empty()
    } else {
        let l = blob_len_at(bytes, off + 2);
        let mv = bytes[off] * 256 + bytes[off + 1];
        let stones = spec_unpack_placements(bytes.subrange(off + 2, off + 2 + l));
        seq![(mv as int, stones)] + spec_unpack_capture_entries(bytes, off + 2 + l, k - 1)
    }
}

/// A whole captures blob is well formed.
pub open spec fn captures_blob_ok(bytes: Seq<u8>) -> bool {
    bytes.len() >= 2 && capture_entries_ok(bytes, 2, bytes[0] * 256 + bytes[1])
}

/// The capture list a packed blob decodes to.
pub open spec fn spec_unpack_captures(bytes: Seq<u8>) -> Seq<(int, Seq<Placement>)> {
    spec_unpack_capture_entries(bytes, 2, bytes[0] * 256 + bytes[1])
}

/// Packs a capture list: a two-byte big-endian entry count, then each
/// entry's move index and packed stones.
pub fn pack_captures(captures: &Vec<CaptureEntry>) -> (r: Vec<u8>)
    requires
        captures@.len() <= 65535,
        valid_capture_pairs(captures_view(captures@)),
    ensures
        r@ == spec_pack_captures(captures_view(captures@)),
{
    let n = captures.len();
    let mut r: Vec<u8> = Vec::new();
    r.push((n / 256) as u8);
    r.push((n % 256) as u8);
    let mut i: usize = 0;
    while i < n
        invariant
            n == captures@.len() <= 65535,
            valid_capture_pairs(captures_view(captures@)),
            i <= n,
            r@ =~= seq![(n / 256) as u8, (n % 256) as u8] + spec_pack_capture_entries(
                captures_view(captures@).subrange(0, i as int),
            ),
        decreases n - i,
    {
        let entry = &captures[i];
        let mv = entry.move_number;
        assert(valid_capture_pair(captures_view(captures@)[i as int]));
        r.push((mv / 256) as u8);
        r.push((mv % 256) as u8);
        let mut stones_bytes = pack_placements(entry.stones.as_slice());
        r.append(&mut stones_bytes);
        i = i + 1;
        proof {
            lemma_pack_entries_snoc(captures_view(captures@), i as int);
        }
    }
    proof {
        assert(captures_view(captures@).subrange(0, n as int) =~= captures_view(captures@));
    }
    r
}

/// Appending one entry to a packed prefix extends the byte image by that
/// entry's bytes.
proof fn lemma_pack_entries_snoc(v: Seq<(int, Seq<Placement>)>, i: int)
    requires
        0 < i <= v.len(),
    ensures
        spec_pack_capture_entries(v.subrange(0, i)) == spec_pack_capture_entries(
            v.subrange(0, i - 1),
        ) + capture_entry_bytes(v[i - 1]),
    decreases i,
{
    if i == 1 {
        assert(v.subrange(0, 1).drop_first() =~= v.subrange(0, 0));
        assert(spec_pack_capture_entries(v.subrange(0, 0)) == Seq::<u8>::empty());
        assert(v.subrange(0, 1).first() == v[0]);
        assert(spec_pack_capture_entries(v.subrange(0, 1)) =~= capture_entry_bytes(v[0]));
        assert(spec_pack_capture_entries(v.subrange(0, 0)) + capture_entry_bytes(v[0])
            =~= capture_entry_bytes(v[0]));
    } else {
        let a = v.subrange(0, i);
        let b = v.subrange(0, i - 1);
        assert(a.first() == v[0] && b.first() == v[0]);
        assert(a.drop_first() =~= v.subrange(1, v.len() as int).subrange(0, i - 1));
        assert(b.drop_first() =~= v.subrange(1, v.len() as int).subrange(0, i - 2));
        lemma_pack_entries_snoc(v.subrange(1, v.len() as int), i - 1);
        assert(v.subrange(1, v.len() as int)[i - 2] == v[i - 1]);
        assert(spec_pack_capture_entries(a) == capture_entry_bytes(v[0])
            + spec_pack_capture_entries(a.drop_first()));
        assert(spec_pack_capture_entries(b) == capture_entry_bytes(v[0])
            + spec_pack_capture_entries(b.drop_first()));
        assert(spec_pack_capture_entries(a) =~= spec_pack_capture_entries(b)
            + capture_entry_bytes(v[i - 1]));
    }
}

/// Unpacks a capture list from a byte blob.
pub fn unpack_captures(packed: &[u8]) -> (r: Vec<CaptureEntry>)
    requires
        captures_blob_ok(packed@),
    ensures
        captures_view(r@) == spec_unpack_captures(packed@),
{
    let n: usize = (packed[0] as usize) * 256 + (packed[1] as usize);
    let mut r: Vec<CaptureEntry> = Vec::new();
    let mut off: usize = 2;
    let mut k: usize = 0;
    while k < n
        invariant
            n == packed@[0] * 256 + packed@[1],
            captures_blob_ok(packed@),
            k <= n,
            r@.len() == k,
            2 <= off <= packed@.len(),
            capture_entries_ok(packed@, off as int, n - k),
            spec_unpack_captures(packed@) =~= captures_view(r@) + spec_unpack_capture_entries(
                packed@,
                off as int,
                n - k,
            ),
        decreases n - k,
    {
        let mv: usize = (packed[off] as usize) * 256 + (packed[off + 1] as usize);
        let cnt: usize = (packed[off + 2] as usize) * 256 + (packed[off + 3] as usize);
        let l = 2 + (9 * cnt + 7) / 8 + (cnt + 7) / 8;
        let ghost old_entries = captures_view(r@);
        let sub = vstd::slice::slice_subrange(packed, off + 2, off + 2 + l);
        let (stones, _used) = unpack_placements(sub);
        r.push(CaptureEntry { move_number: mv, stones });
        proof {
            assert(captures_view(r@) =~= old_entries + seq![
                (mv as int, spec_unpack_placements(sub@)),
            ]);
            assert(captures_view(r@) + spec_unpack_capture_entries(
                packed@,
                off as int + 2 + l,
                n - k - 1,
            ) =~= (old_entries + spec_unpack_capture_entries(packed@, off as int, n - k)));
        }
        off = off + 2 + l;
        k = k + 1;
    }
    proof {
        assert(spec_unpack_capture_entries(packed@, off as int, 0) =~= Seq::<
            (int, Seq<Placement>),
        >::empty());
        assert(captures_view(r@) =~= spec_unpack_captures(packed@));
    }
    r
}

/// Unpacking inverts packing for capture lists whose entries all fit the
/// two-byte count and index fields.
pub proof fn lemma_captures_round_trip(v: Seq<(int, Seq<Placement>)>)
    requires
        v.len() <= 65535,
        valid_capture_pairs(v),
    ensures
        captures_blob_ok(spec_pack_captures(v)),
        spec_unpack_captures(spec_pack_captures(v)) == v,
{
    let packed = spec_pack_captures(v);
    let n = v.len() as int;
    lemma_fundamental_div_mod_converse(n, 256, n / 256, n % 256);
    assert(packed[0] * 256 + packed[1] == n);
    assert(packed.subrange(2, 2 + spec_pack_capture_entries(v).len() as int)
        =~= spec_pack_capture_entries(v));
    lemma_capture_entries_round_trip(packed, 2, v);
}

/// The head entry of a packed capture region reads back exactly.
#[verifier::rlimit(100)]
proof fn lemma_capture_head(bytes: Seq<u8>, off: int, p: (int, Seq<Placement>))
    requires
        valid_capture_pair(p),
        0 <= off,
        off + capture_entry_bytes(p).len() <= bytes.len(),
        forall|t: int|
            0 <= t < capture_entry_bytes(p).len() ==> bytes[off + t] == capture_entry_bytes(p)[t],
    ensures
        bytes[off] * 256 + bytes[off + 1] == p.0,
        off + 4 <= bytes.len(),
        blob_len_at(bytes, off + 2) == spec_pack_placements(p.1).len(),
        bytes.subrange(off + 2, off + 2 + blob_len_at(bytes, off + 2)) == spec_pack_placements(
            p.1,
        ),
{
    let eb = capture_entry_bytes(p);
    let stones_bytes = spec_pack_placements(p.1);
    let l = stones_bytes.len() as int;
    let n = p.1.len() as int;
    lemma_fundamental_div_mod_converse(p.0, 256, p.0 / 256, p.0 % 256);
    assert(eb[0] == (p.0 / 256) as u8 && eb[1] == (p.0 % 256) as u8);
    assert(bytes[off] * 256 + bytes[off + 1] == p.0);
    assert(l == packed_total_len(n));
    assert(eb.len() == 2 + l);
    assert forall|t: int| 0 <= t < l implies bytes[off + 2 + t] == stones_bytes[t] by {
        assert(bytes[off + (2 + t)] == eb[2 + t]);
    }
    assert(stones_bytes[0] == (n / 256) as u8 && stones_bytes[1] == (n % 256) as u8);
    lemma_fundamental_div_mod_converse(n, 256, n / 256, n % 256);
    assert(bytes[off + 2] * 256 + bytes[off + 3] == n);
    assert(blob_len_at(bytes, off + 2) == l);
    assert(bytes.subrange(off + 2, off + 2 + l) =~= stones_bytes);
}

/// If the bytes from `off` onward carry the packed image of the entries
/// `v`, parsing them there recovers v exactly.
#[verifier::rlimit(100)]
proof fn lemma_capture_entries_round_trip(bytes: Seq<u8>, off: int, v: Seq<(int, Seq<Placement>)>)
    requires
        valid_capture_pairs(v),
        0 <= off,
        off + spec_pack_capture_entries(v).len() <= bytes.len(),
        forall|t: int|
            0 <= t < spec_pack_capture_entries(v).len() ==> bytes[off + t]
                == spec_pack_capture_entries(v)[t],
    ensures
        capture_entries_ok(bytes, off, v.len() as int),
        spec_unpack_capture_entries(bytes, off, v.len() as int) == v,
    decreases v.len(),
{
    if v.len() == 0 {
        assert(spec_unpack_capture_entries(bytes, off, 0) =~= v);
    } else {
        let p = v.first();
        let eb = capture_entry_bytes(p);
        let rest = spec_pack_capture_entries(v.drop_first());
        assert(spec_pack_capture_entries(v) == eb + rest);
        assert forall|t: int| 0 <= t < eb.len() implies bytes[off + t] == eb[t] by {
            assert(bytes[off + t] == (eb + rest)[t]);
        }
        lemma_capture_head(bytes, off, p);
        lemma_placements_round_trip(p.1);
        let l = blob_len_at(bytes, off + 2);
        assert forall|t: int| 0 <= t < rest.len() implies bytes[off + 2 + l + t] == rest[t] by {
            assert(bytes[off + (2 + l + t)] == (eb + rest)[2 + l + t]);
        }
        lemma_capture_entries_round_trip(bytes, off + 2 + l, v.drop_first());
        assert(spec_unpack_capture_entries(bytes, off, v.len() as int) =~= v);
    }
}

/// A 9-bit value is the weighted sum of its bits.
proof fn lemma_value_from_bits(v: int)
    requires
        0 <= v < 512,
    ensures
        256 * ((v / 256) % 2) + 128 * ((v / 128) % 2) + 64 * ((v / 64) % 2) + 32 * ((v / 32) % 2)
            + 16 * ((v / 16) % 2) + 8 * ((v / 8) % 2) + 4 * ((v / 4) % 2) + 2 * ((v / 2) % 2) + ((v
            / 1) % 2) == v,
{
    lemma_mod_breakdown(v, 256, 2);
    lemma_mod_breakdown(v, 128, 2);
    lemma_mod_breakdown(v, 64, 2);
    lemma_mod_breakdown(v, 32, 2);
    lemma_mod_breakdown(v, 16, 2);
    lemma_mod_breakdown(v, 8, 2);
    lemma_mod_breakdown(v, 4, 2);
    lemma_mod_breakdown(v, 2, 2);
    lemma_mod_breakdown(v, 1, 2);
    assert(v % 512 == v);
    assert(v % 1 == 0) by {
        lemma_fundamental_div_mod_converse(v, 1, v, 0);
    }
    assert(v / 1 == v) by {
        lemma_fundamental_div_mod_converse(v, 1, v, 0);
    }
}

} // verus!
