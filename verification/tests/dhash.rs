use image::imageops::FilterType;
use image::{DynamicImage, GrayImage, Luma, RgbImage};
use imagemami::dhash::{compute_dhash, dhash_from_grid, dhash_hex, dhash_text, hamming_distance, perceptual_hash};
use imagemami::picture::{shrink_to_grid, to_gray, GrayPicture};

fn gradient(width: u32, height: u32) -> DynamicImage {
    DynamicImage::ImageLuma8(GrayImage::from_fn(width, height, |x, y| {
        Luma([((x * 7 + y * 13 + (x * y) % 31) % 256) as u8])
    }))
}

fn dhash_by_hand(picture: &DynamicImage) -> u64 {
    let luma = picture.to_luma8();
    let resized = image::imageops::resize(&luma, 9, 8, FilterType::Triangle);
    let mut bits = 0u64;
    for y in 0..8u32 {
        for x in 0..8u32 {
            if resized.get_pixel(x, y)[0] > resized.get_pixel(x + 1, y)[0] {
                bits |= 1u64 << (y * 8 + x);
            }
        }
    }
    bits
}

#[test]
fn hamming_distance_counts_differing_bits() {
    assert_eq!(hamming_distance(0, 0), 0);
    assert_eq!(hamming_distance(0b1011, 0b0001), 2);
    assert_eq!(hamming_distance(0, u64::MAX), 64);
    assert_eq!(hamming_distance(1 << 63, 1), 2);
    assert_eq!(hamming_distance(0xff00, 0x0ff0), 8);
}

#[test]
fn hamming_distance_is_symmetric_and_zero_on_equal() {
    let a = 0x0123_4567_89ab_cdefu64;
    let b = 0xfedc_ba98_7654_3210u64;
    assert_eq!(hamming_distance(a, b), hamming_distance(b, a));
    assert_eq!(hamming_distance(a, a), 0);
    assert_eq!(hamming_distance(a, b), 64);
}

#[test]
fn flat_grid_has_no_bit_set() {
    let grid = [128u8; 72];
    assert_eq!(dhash_from_grid(&grid), 0);
}

#[test]
fn grid_falling_to_the_right_has_every_bit_set() {
    let mut grid = [0u8; 72];
    for y in 0..8 {
        for x in 0..9 {
            grid[y * 9 + x] = (200 - x * 10) as u8;
        }
    }
    assert_eq!(dhash_from_grid(&grid), u64::MAX);
}

#[test]
fn grid_rising_to_the_right_has_no_bit_set() {
    let mut grid = [0u8; 72];
    for y in 0..8 {
        for x in 0..9 {
            grid[y * 9 + x] = (x * 10) as u8;
        }
    }
    assert_eq!(dhash_from_grid(&grid), 0);
}

#[test]
fn one_bright_cell_sets_the_bit_of_its_place() {
    let mut grid = [10u8; 72];
    grid[3 * 9 + 2] = 200;
    // Cell (2, 3) is brighter than (3, 3): bit 3 * 8 + 2. Cell (1, 3) is darker than (2, 3).
    assert_eq!(dhash_from_grid(&grid), 1u64 << 26);
}

#[test]
fn the_ninth_column_is_only_compared_against() {
    let mut grid = [10u8; 72];
    grid[8] = 200;
    assert_eq!(dhash_from_grid(&grid), 0);
    grid[8] = 0;
    assert_eq!(dhash_from_grid(&grid), 1u64 << 7);
    let mut last = [10u8; 72];
    last[71] = 0;
    assert_eq!(dhash_from_grid(&last), 1u64 << 63);
}

#[test]
fn dhash_text_is_sixteen_lowercase_hex_digits() {
    assert_eq!(dhash_text(0), "0000000000000000");
    assert_eq!(dhash_text(1), "0000000000000001");
    assert_eq!(dhash_text(0xDEAD_BEEF), "00000000deadbeef");
    assert_eq!(dhash_text(u64::MAX), "ffffffffffffffff");
    assert_eq!(dhash_text(0x0123_4567_89ab_cdef), "0123456789abcdef");
}

#[test]
fn shrink_to_grid_gives_seventy_two_cells() {
    let gray = to_gray(&gradient(64, 48));
    assert_eq!(shrink_to_grid(&gray).len(), 72);
    assert_ne!(shrink_to_grid(&gray), gray.pixels);
}

#[test]
fn shrinking_a_nine_by_eight_picture_keeps_it() {
    let pixels: Vec<u8> = (0..72u32).map(|i| (i * 3) as u8).collect();
    let gray = GrayPicture { width: 9, height: 8, pixels: pixels.clone() };
    assert_eq!(shrink_to_grid(&gray), pixels);
}

#[test]
fn compute_dhash_is_the_difference_hash_of_the_shrunk_picture() {
    for (w, h) in [(64u32, 48u32), (9, 8), (100, 100), (17, 5), (1, 1)] {
        let picture = gradient(w, h);
        let gray = to_gray(&picture);
        assert_eq!(compute_dhash(&gray), dhash_by_hand(&picture), "{}x{}", w, h);
        assert_eq!(compute_dhash(&gray), dhash_from_grid(&shrink_to_grid(&gray)));
    }
}

#[test]
fn compute_dhash_of_a_colour_picture_goes_through_gray() {
    let picture = DynamicImage::ImageRgb8(RgbImage::from_fn(40, 30, |x, y| {
        image::Rgb([(x * 6) as u8, (y * 8) as u8, ((x + y) * 3) as u8])
    }));
    let gray = to_gray(&picture);
    assert_eq!(gray.width, 40);
    assert_eq!(gray.height, 30);
    assert_eq!(gray.pixels.len(), 1200);
    assert_eq!(compute_dhash(&gray), dhash_by_hand(&picture));
}

#[test]
fn same_picture_same_fingerprint() {
    let a = to_gray(&gradient(64, 48));
    let b = to_gray(&gradient(64, 48));
    assert_eq!(hamming_distance(compute_dhash(&a), compute_dhash(&b)), 0);
}

#[test]
fn perceptual_hash_is_there_for_every_picture_this_machine_holds() {
    let gray = to_gray(&gradient(64, 48));
    assert_eq!(perceptual_hash(&gray), Some(compute_dhash(&gray)));
}

#[test]
fn dhash_hex_is_the_text_of_the_fingerprint() {
    let picture = gradient(64, 48);
    let gray = to_gray(&picture);
    assert_eq!(dhash_hex(&gray), format!("{:016x}", dhash_by_hand(&picture)));
}

#[test]
fn empty_picture_has_the_fingerprint_of_a_flat_grid() {
    let gray = GrayPicture { width: 0, height: 0, pixels: Vec::new() };
    assert_eq!(compute_dhash(&gray), 0);
}
