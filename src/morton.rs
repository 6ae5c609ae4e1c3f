//! Morton (Z-order) codes of small integer coordinates: the bits of the
//! coordinates interleaved, lowest first.
use vstd::prelude::*;

verus! {

/// Bit `k` of `x`.
pub open spec fn bit(x: u32, k: u32) -> bool {
    (x >> k) & 1u32 == 1u32
}

proof fn lemma_bit_or_shift(p: u32, q: u32, s: u32, k: u32)
    requires
        s < 32,
        k < 32,
    ensures
        bit(p | (q << s), k) == (bit(p, k) || (k >= s && bit(q, (k - s) as u32))),
{
    assert((((p | (q << s)) >> k) & 1u32 == 1u32) == (((p >> k) & 1u32 == 1u32) || (k >= s && ((q
        >> ((k - s) as u32)) & 1u32 == 1u32)))) by (bit_vector)
        requires
            s < 32,
            k < 32,
    ;
}

/// Spreads the low 16 bits of `x` to the even positions.
fn space_bits_2(x: u32) -> (r: u32)
    ensures
        x < 0x1_0000 ==> forall|k: u32|
            k < 32 ==> #[trigger] bit(r, k) == (k % 2 == 0 && bit(x, k / 2)),
{
    let (b_1, b_2, b_4, b_8) = (
        0b01010101_01010101_01010101_01010101u32,
        0b00110011_00110011_00110011_00110011u32,
        0b00001111_00001111_00001111_00001111u32,
        0b00000000_11111111_00000000_11111111u32,
    );
    let x1 = (x | x << 8) & b_8;
    let x2 = (x1 | x1 << 4) & b_4;
    let x3 = (x2 | x2 << 2) & b_2;
    let x4 = (x3 | x3 << 1) & b_1;
    proof {
        assert forall|k: u32| x < 0x1_0000 && k < 32 implies #[trigger] bit(x4, k) == (k % 2 == 0
            && bit(x, k / 2)) by {
            assert((((x4 >> k) & 1u32) == 1u32) == (k % 2 == 0 && ((x >> (k / 2)) & 1u32) == 1u32))
                by (bit_vector)
                requires
                    x < 0x1_0000,
                    k < 32,
                    x1 == (x | x << 8) & 0x00ff_00ffu32,
                    x2 == (x1 | x1 << 4) & 0x0f0f_0f0fu32,
                    x3 == (x2 | x2 << 2) & 0x3333_3333u32,
                    x4 == (x3 | x3 << 1) & 0x5555_5555u32,
            ;
        }
    }
    x4
}

/// Spreads the low 8 bits of `x` to the positions that are multiples of 3.
fn space_bits_3(x: u32) -> (r: u32)
    ensures
        x < 0x100 ==> forall|k: u32|
            k < 32 ==> #[trigger] bit(r, k) == (k % 3 == 0 && k < 24 && bit(x, k / 3)),
{
    let (b_2, b_4, b_8) = (
        0b00000000_001001_001001_001001_001001u32,
        0b00000000_000011_000011_000011_000011u32,
        0b00000000_000000_001111_000000_001111u32,
    );
    let x1 = (x | x << 8) & b_8;
    let x2 = (x1 | x1 << 4) & b_4;
    let x3 = (x2 | x2 << 2) & b_2;
    proof {
        assert forall|k: u32| x < 0x100 && k < 32 implies #[trigger] bit(x3, k) == (k % 3 == 0 && k
            < 24 && bit(x, k / 3)) by {
            assert((((x3 >> k) & 1u32) == 1u32) == (k % 3 == 0 && k < 24 && ((x >> (k / 3)) & 1u32)
                == 1u32)) by (bit_vector)
                requires
                    x < 0x100,
                    k < 32,
                    x1 == (x | x << 8) & 0xf00fu32,
                    x2 == (x1 | x1 << 4) & 0xc30c3u32,
                    x3 == (x2 | x2 << 2) & 0x249249u32,
            ;
        }
    }
    x3
}

/// Spreads the low 8 bits of `x` to the positions that are multiples of 4.
fn space_bits_4(x: u32) -> (r: u32)
    ensures
        x < 0x100 ==> forall|k: u32|
            k < 32 ==> #[trigger] bit(r, k) == (k % 4 == 0 && bit(x, k / 4)),
{
    let (b_3, b_6, b_12) = (
        0b00010001_00010001_00010001_00010001u32,
        0b00000011_00000011_00000011_00000011u32,
        0b00000000_00001111_00000000_00001111u32,
    );
    let x1 = (x | x << 12) & b_12;
    let x2 = (x1 | x1 << 6) & b_6;
    let x3 = (x2 | x2 << 3) & b_3;
    proof {
        assert forall|k: u32| x < 0x100 && k < 32 implies #[trigger] bit(x3, k) == (k % 4 == 0
            && bit(x, k / 4)) by {
            assert((((x3 >> k) & 1u32) == 1u32) == (k % 4 == 0 && ((x >> (k / 4)) & 1u32) == 1u32))
                by (bit_vector)
                requires
                    x < 0x100,
                    k < 32,
                    x1 == (x | x << 12) & 0x000f_000fu32,
                    x2 == (x1 | x1 << 6) & 0x0303_0303u32,
                    x3 == (x2 | x2 << 3) & 0x1111_1111u32,
            ;
        }
    }
    x3
}

/// The Morton code of a point of the plane: bit `2k` is bit `k` of the first
/// coordinate and bit `2k + 1` bit `k` of the second (for coordinates below
/// `2^16`).
pub fn morton_encode_2(point: [u32; 2]) -> (r: usize)
    ensures
        r < 0x1_0000_0000,
        point[0] < 0x1_0000 && point[1] < 0x1_0000 ==> forall|k: u32|
            k < 32 ==> #[trigger] bit(r as u32, k) == bit(point[(k % 2) as int], k / 2),
{
    let a = space_bits_2(point[0]);
    let b = space_bits_2(point[1]);
    let v = a | b << 1;
    proof {
        assert forall|k: u32| point[0] < 0x1_0000 && point[1] < 0x1_0000 && k < 32 implies #[trigger] bit(
            v,
            k,
        ) == bit(point[(k % 2) as int], k / 2) by {
            lemma_bit_or_shift(a, b, 1, k);
            assert(bit(a, k) == bit(a, k));
            if k >= 1 {
                assert(bit(b, (k - 1) as u32) == bit(b, (k - 1) as u32));
            }
        }
    }
    v as usize
}

/// The Morton code of a point of space: bit `3k + j` is bit `k` of
/// coordinate `j` (for coordinates below `2^8`).
pub fn morton_encode_3(point: [u32; 3]) -> (r: usize)
    ensures
        r < 0x1_0000_0000,
        point[0] < 0x100 && point[1] < 0x100 && point[2] < 0x100 ==> forall|k: u32|
            k < 32 ==> #[trigger] bit(r as u32, k) == (k < 24 && bit(
                point[(k % 3) as int],
                k / 3,
            )),
{
    let a = space_bits_3(point[0]);
    let b = space_bits_3(point[1]);
    let c = space_bits_3(point[2]);
    let ab = a | b << 1;
    let v = ab | c << 2;
    proof {
        assert forall|k: u32|
            point[0] < 0x100 && point[1] < 0x100 && point[2] < 0x100 && k < 32 implies #[trigger] bit(
            v,
            k,
        ) == (k < 24 && bit(point[(k % 3) as int], k / 3)) by {
            lemma_bit_or_shift(ab, c, 2, k);
            lemma_bit_or_shift(a, b, 1, k);
            assert(bit(a, k) == bit(a, k));
            if k >= 1 {
                assert(bit(b, (k - 1) as u32) == bit(b, (k - 1) as u32));
            }
            if k >= 2 {
                assert(bit(c, (k - 2) as u32) == bit(c, (k - 2) as u32));
            }
        }
    }
    v as usize
}

/// The Morton code of a point of four dimensions: bit `4k + j` is bit `k`
/// of coordinate `j` (for coordinates below `2^8`).
pub fn morton_encode_4(point: [u32; 4]) -> (r: usize)
    ensures
        r < 0x1_0000_0000,
        point[0] < 0x100 && point[1] < 0x100 && point[2] < 0x100 && point[3] < 0x100
            ==> forall|k: u32|
            k < 32 ==> #[trigger] bit(r as u32, k) == bit(point[(k % 4) as int], k / 4),
{
    let a = space_bits_4(point[0]);
    let b = space_bits_4(point[1]);
    let c = space_bits_4(point[2]);
    let d = space_bits_4(point[3]);
    let ab = a | b << 1;
    let abc = ab | c << 2;
    let v = abc | d << 3;
    proof {
        assert forall|k: u32|
            point[0] < 0x100 && point[1] < 0x100 && point[2] < 0x100 && point[3] < 0x100 && k
                < 32 implies #[trigger] bit(v, k) == bit(point[(k % 4) as int], k / 4) by {
            lemma_bit_or_shift(abc, d, 3, k);
            lemma_bit_or_shift(ab, c, 2, k);
            lemma_bit_or_shift(a, b, 1, k);
            assert(bit(a, k) == bit(a, k));
            if k >= 1 {
                assert(bit(b, (k - 1) as u32) == bit(b, (k - 1) as u32));
            }
            if k >= 2 {
                assert(bit(c, (k - 2) as u32) == bit(c, (k - 2) as u32));
            }
            if k >= 3 {
                assert(bit(d, (k - 3) as u32) == bit(d, (k - 3) as u32));
            }
        }
    }
    v as usize
}

} // verus!
