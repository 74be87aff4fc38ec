//! The 64-bit difference hash of a picture and the Hamming distance between two hashes.

use crate::picture::{grid_of, shrink_to_grid, GrayPicture, GRID_HEIGHT};
use vstd::prelude::*;

verus! {

/// Whether bit `i` (counted from the least significant) of `x` is set.
pub open spec fn bit_is_set(x: u64, i: nat) -> bool {
    (x >> (i as u64)) & 1 == 1
}

/// How many of the lowest `n` bits of `x` are set.
pub open spec fn ones_below(x: u64, n: nat) -> nat
    decreases n,
{
    if n == 0 {
        0
    } else {
        ones_below(x, (n - 1) as nat) + if bit_is_set(x, (n - 1) as nat) {
            1nat
        } else {
            0nat
        }
    }
}

/// How many of the 64 bits of `x` are set.
pub open spec fn ones(x: u64) -> nat {
    ones_below(x, 64)
}

/// `u64::count_ones` of std: the number of ones in the binary representation.
pub assume_specification[ u64::count_ones ](x: u64) -> (n: u32)
    ensures
        n as nat == ones(x),
;

/// The number of bit positions in which two fingerprints differ.
pub open spec fn hamming(a: u64, b: u64) -> nat {
    ones(a ^ b)
}

/// Hamming distance between two 64-bit fingerprints.
pub fn hamming_distance(a: u64, b: u64) -> (d: u32)
    ensures
        d as nat == hamming(a, b),
{
    (a ^ b).count_ones()
}

/// With no bit set among those from `from` upwards, nothing is left of `x` above `from`.
proof fn lemma_clear_above(x: u64, from: nat)
    requires
        from < 64,
        forall|i: nat| from <= i < 64 ==> !bit_is_set(x, i),
    ensures
        x >> (from as u64) == 0,
    decreases 64 - from,
{
    let j = from as u64;
    assert(!bit_is_set(x, from));
    if from == 63 {
        assert((x >> j) == 0) by (bit_vector)
            requires
                j == 63,
                (x >> j) & 1 != 1,
        ;
    } else {
        lemma_clear_above(x, from + 1);
        let above = (from + 1) as u64;
        assert((x >> j) == 0) by (bit_vector)
            requires
                j < 63,
                above == j + 1,
                (x >> above) == 0,
                (x >> j) & 1 != 1,
        ;
    }
}

/// Counting no ones among the lowest `n` bits means that none of them is set.
proof fn lemma_none_counted(x: u64, n: nat)
    ensures
        ones_below(x, n) == 0 <==> (forall|i: nat| i < n ==> !bit_is_set(x, i)),
    decreases n,
{
    if n > 0 {
        lemma_none_counted(x, (n - 1) as nat);
        if ones_below(x, n) == 0 {
            assert forall|i: nat| i < n implies !bit_is_set(x, i) by {
                if i < n - 1 {
                } else {
                    assert(i == (n - 1) as nat);
                }
            }
        }
    }
}

/// Only zero has no bit set.
pub proof fn lemma_ones_zero(x: u64)
    ensures
        ones(x) == 0 <==> x == 0,
{
    lemma_none_counted(x, 64);
    if ones(x) == 0 {
        lemma_clear_above(x, 0);
        assert(x >> 0 == x) by (bit_vector);
    }
    if x == 0 {
        assert forall|i: nat| i < 64 implies !bit_is_set(x, i) by {
            let j = i as u64;
            assert((x >> j) & 1 != 1) by (bit_vector)
                requires
                    x == 0,
            ;
        }
    }
}

/// Two fingerprints are at distance 0 exactly when they are the same fingerprint.
pub proof fn lemma_hamming_zero(a: u64, b: u64)
    ensures
        hamming(a, b) == 0 <==> a == b,
{
    lemma_ones_zero(a ^ b);
    assert((a ^ b == 0) <==> a == b) by (bit_vector);
}

/// The distance does not depend on the order of the two fingerprints.
pub proof fn lemma_hamming_symmetric(a: u64, b: u64)
    ensures
        hamming(a, b) == hamming(b, a),
{
    assert(a ^ b == b ^ a) by (bit_vector);
}

/// No more than 64 bits can differ.
pub proof fn lemma_hamming_bound(a: u64, b: u64)
    ensures
        hamming(a, b) <= 64,
{
    lemma_ones_below_bound(a ^ b, 64);
}

/// Among `n` bits no more than `n` are set.
proof fn lemma_ones_below_bound(x: u64, n: nat)
    ensures
        ones_below(x, n) <= n,
    decreases n,
{
    if n > 0 {
        lemma_ones_below_bound(x, (n - 1) as nat);
    }
}

/// Whether grid cell `cell` (cell `y * 8 + x` is column `x` of row `y`) is brighter than
/// its right neighbour. The grid has 9 columns, so every one of the 8 x 8 cells has one.
pub open spec fn brighter_than_next(grid: Seq<u8>, cell: int) -> bool {
    let x = cell % 8;
    let y = cell / 8;
    grid[y * 9 + x] > grid[y * 9 + x + 1]
}

/// The fingerprint as far as the first `cells` cells decide it.
pub open spec fn dhash_upto(grid: Seq<u8>, cells: nat) -> u64
    decreases cells,
{
    if cells == 0 {
        0
    } else {
        let below = dhash_upto(grid, (cells - 1) as nat);
        if brighter_than_next(grid, cells - 1) {
            below | (1u64 << ((cells - 1) as u64))
        } else {
            below
        }
    }
}

/// The difference hash of a 9 x 8 grid: bit `y * 8 + x` is set exactly when the cell in
/// column `x` of row `y` is brighter than the cell to its right.
pub open spec fn dhash_of(grid: Seq<u8>) -> u64 {
    dhash_upto(grid, 64)
}

/// The difference hash of a gray picture: that of the grid it shrinks to.
pub open spec fn dhash_of_picture(gray: GrayPicture) -> u64 {
    dhash_of(grid_of(gray))
}

/// Bit by bit: what the first `cells` cells decide.
proof fn lemma_dhash_upto_bits(grid: Seq<u8>, cells: nat)
    requires
        cells <= 64,
    ensures
        forall|cell: nat| cell < 64 ==> #[trigger] bit_is_set(dhash_upto(grid, cells), cell) == (cell < cells
            && brighter_than_next(grid, cell as int)),
    decreases cells,
{
    if cells == 0 {
        assert forall|cell: nat| cell < 64 implies !#[trigger] bit_is_set(0u64, cell) by {
            let j = cell as u64;
            assert((0u64 >> j) & 1 != 1) by (bit_vector);
        }
    } else {
        let below = dhash_upto(grid, (cells - 1) as nat);
        lemma_dhash_upto_bits(grid, (cells - 1) as nat);
        let top = (cells - 1) as u64;
        assert forall|cell: nat| cell < 64 implies #[trigger] bit_is_set(dhash_upto(grid, cells), cell) == (cell
            < cells && brighter_than_next(grid, cell as int)) by {
            let j = cell as u64;
            assert(bit_is_set(below, cell) == (cell < cells - 1 && brighter_than_next(grid, cell as int)));
            assert(((below | (1u64 << top)) >> j) & 1 == 1 <==> (j == top || (below >> j) & 1 == 1)) by (bit_vector)
                requires
                    j < 64,
                    top < 64,
            ;
        }
    }
}

/// The fingerprint bit by bit: bit `y * 8 + x` tells whether the cell in column `x` of
/// row `y` is brighter than its right neighbour.
pub proof fn lemma_dhash_bits(grid: Seq<u8>)
    ensures
        forall|x: int, y: int| 0 <= x < 8 && 0 <= y < 8 ==> #[trigger] bit_is_set(dhash_of(grid), (y * 8 + x) as nat)
            == (grid[y * 9 + x] > grid[y * 9 + x + 1]),
{
    lemma_dhash_upto_bits(grid, 64);
    assert forall|x: int, y: int| 0 <= x < 8 && 0 <= y < 8 implies #[trigger] bit_is_set(dhash_of(grid), (y * 8 + x) as nat)
        == (grid[y * 9 + x] > grid[y * 9 + x + 1]) by {
        let cell = (y * 8 + x) as nat;
        assert(cell < 64);
        assert(cell as int % 8 == x && cell as int / 8 == y);
    }
}

/// Reads the difference hash off a 9 x 8 grid of brightness values, stored row by row.
pub fn dhash_from_grid(grid: &[u8]) -> (bits: u64)
    requires
        grid@.len() == 72,
    ensures
        bits == dhash_of(grid@),
{
    let mut bits: u64 = 0;
    let mut y: u64 = 0;
    while y < 8
        invariant
            y <= 8,
            grid@.len() == 72,
            bits == dhash_upto(grid@, (y * 8) as nat),
        decreases 8 - y,
    {
        let mut x: u64 = 0;
        while x < 8
            invariant
                x <= 8,
                y < 8,
                grid@.len() == 72,
                bits == dhash_upto(grid@, (y * 8 + x) as nat),
            decreases 8 - x,
        {
            let idx: usize = (y * 9 + x) as usize;
            let bit_pos: u64 = y * 8 + x;
            assert(bit_pos as int % 8 == x && bit_pos as int / 8 == y);
            if grid[idx] > grid[idx + 1] {
                bits = bits | (1u64 << bit_pos);
            }
            x += 1;
        }
        y += 1;
    }
    bits
}

/// The difference hash of a gray picture: the picture is shrunk to 9 x 8 with the
/// triangle filter and each cell compared with its right neighbour.
pub fn compute_dhash(img: &GrayPicture) -> (bits: u64)
    requires
        img.wf(),
        img.shrinkable(GRID_HEIGHT),
    ensures
        bits == dhash_of_picture(*img),
{
    let grid = shrink_to_grid(img);
    dhash_from_grid(grid.as_slice())
}

/// The difference hash of a gray picture, or none where this machine cannot hold what
/// shrinking the picture takes.
pub fn perceptual_hash(img: &GrayPicture) -> (hash: Option<u64>)
    requires
        img.wf(),
    ensures
        hash == if img.shrinkable(GRID_HEIGHT) {
            Some(dhash_of_picture(*img))
        } else {
            None
        },
{
    if (img.width as u128) * 128 <= isize::MAX as u128 {
        Some(compute_dhash(img))
    } else {
        None
    }
}

/// The same picture has the same fingerprint, at distance 0: decoding two files to the
/// same gray picture makes them indistinguishable to the visual comparison.
pub proof fn lemma_same_picture_same_hash(a: GrayPicture, b: GrayPicture)
    requires
        a.width == b.width,
        a.height == b.height,
        a.pixels@ == b.pixels@,
    ensures
        dhash_of_picture(a) == dhash_of_picture(b),
        hamming(dhash_of_picture(a), dhash_of_picture(b)) == 0,
        a.shrinkable(GRID_HEIGHT) == b.shrinkable(GRID_HEIGHT),
        a.wf() == b.wf(),
{
    lemma_hamming_zero(dhash_of_picture(a), dhash_of_picture(b));
}

/// The digit for a value below 16.
pub open spec fn hex_digit(value: u64) -> char {
    if value < 10 {
        (48 + value) as u8 as char
    } else {
        (87 + value) as u8 as char
    }
}

/// A fingerprint as 16 lowercase hexadecimal digits, the most significant first.
pub open spec fn hex16(bits: u64) -> Seq<char> {
    Seq::new(16, |i: int| hex_digit((bits >> ((60 - 4 * i) as u64)) & 0xf))
}

/// `format!` of std with `{:016x}`: 16 lowercase hexadecimal digits, padded with zeros.
#[verifier::external_body]
fn format_hex16(bits: u64) -> (text: String)
    ensures
        text@ == hex16(bits),
{
    format!("{:016x}", bits)
}

/// A fingerprint as text: 16 lowercase hexadecimal digits.
pub fn dhash_text(bits: u64) -> (text: String)
    ensures
        text@ == hex16(bits),
        text@.len() == 16,
{
    format_hex16(bits)
}

/// The difference hash of a gray picture as 16 hexadecimal digits.
pub fn dhash_hex(img: &GrayPicture) -> (text: String)
    requires
        img.wf(),
        img.shrinkable(GRID_HEIGHT),
    ensures
        text@ == hex16(dhash_of_picture(*img)),
{
    dhash_text(compute_dhash(img))
}

} // verus!
