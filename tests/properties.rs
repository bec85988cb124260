use redact::{
    brush_pixelate, brush_solid_fill, build_mask, clamp_end, crop_region, mask_bounds, pixelate,
    solid_fill, store_region, tap_range,
};

fn pattern(width: u32, height: u32) -> Vec<u8> {
    let mut data = vec![0u8; (width * height * 4) as usize];
    for y in 0..height {
        for x in 0..width {
            let i = ((y * width + x) * 4) as usize;
            data[i] = (x * 7 + y * 3) as u8;
            data[i + 1] = (x * 11 + 5) as u8;
            data[i + 2] = (y * 13 + 1) as u8;
            data[i + 3] = (x + y) as u8;
        }
    }
    data
}

fn at(width: u32, x: u32, y: u32) -> usize {
    ((y * width + x) * 4) as usize
}

#[test]
fn solid_fill_scenario_inside() {
    let original = pattern(10, 10);
    let mut data = original.clone();
    solid_fill(&mut data, 10, 10, 2, 2, 3, 3, 255, 0, 0);
    for y in 0..10u32 {
        for x in 0..10u32 {
            let i = at(10, x, y);
            if (2..5).contains(&x) && (2..5).contains(&y) {
                assert_eq!(&data[i..i + 3], &[255, 0, 0]);
            } else {
                assert_eq!(&data[i..i + 3], &original[i..i + 3]);
            }
            assert_eq!(data[i + 3], original[i + 3]);
        }
    }
}

#[test]
fn solid_fill_scenario_clamped() {
    let original = pattern(10, 10);
    let mut data = original.clone();
    solid_fill(&mut data, 10, 10, 8, 8, 5, 5, 128, 128, 128);
    let mut changed = 0;
    for y in 0..10u32 {
        for x in 0..10u32 {
            let i = at(10, x, y);
            if x >= 8 && y >= 8 {
                assert_eq!(&data[i..i + 3], &[128, 128, 128]);
                changed += 1;
            } else {
                assert_eq!(&data[i..i + 4], &original[i..i + 4]);
            }
        }
    }
    assert_eq!(changed, 4);
}

#[test]
fn solid_fill_region_off_canvas_is_noop() {
    let original = pattern(6, 6);
    let mut data = original.clone();
    solid_fill(&mut data, 6, 6, 7, 1, 3, 3, 1, 2, 3);
    assert_eq!(data, original);
    solid_fill(&mut data, 6, 6, u32::MAX, u32::MAX, u32::MAX, u32::MAX, 1, 2, 3);
    assert_eq!(data, original);
}

#[test]
fn solid_fill_short_buffer_skips_partial_pixel() {
    let mut data = vec![9u8; 2 * 2 * 4 - 1];
    solid_fill(&mut data, 2, 2, 0, 0, 2, 2, 1, 2, 3);
    assert_eq!(&data[0..3], &[1, 2, 3]);
    assert_eq!(&data[8..11], &[1, 2, 3]);
    assert_eq!(&data[12..15], &[9, 9, 9]);
}

#[test]
fn pixelate_truncated_mean() {
    let mut data = vec![0u8; 2 * 1 * 4];
    data[0] = 10;
    data[1] = 0;
    data[2] = 255;
    data[3] = 7;
    data[4] = 21;
    data[5] = 1;
    data[6] = 254;
    data[7] = 9;
    pixelate(&mut data, 2, 1, 0, 0, 2, 1, 2);
    assert_eq!(data, vec![15, 0, 254, 7, 15, 0, 254, 9]);
}

#[test]
fn pixelate_last_block_is_cut() {
    let mut data = vec![0u8; 3 * 1 * 4];
    data[0] = 2;
    data[4] = 4;
    data[8] = 9;
    pixelate(&mut data, 3, 1, 0, 0, 3, 1, 2);
    assert_eq!(data[0], 3);
    assert_eq!(data[4], 3);
    assert_eq!(data[8], 9);
}

#[test]
fn pixelate_blocks_start_at_region_corner() {
    let mut data = vec![0u8; 4 * 1 * 4];
    data[0] = 100;
    data[4] = 1;
    data[8] = 3;
    data[12] = 200;
    pixelate(&mut data, 4, 1, 1, 0, 2, 1, 2);
    assert_eq!(data[0], 100);
    assert_eq!(data[4], 2);
    assert_eq!(data[8], 2);
    assert_eq!(data[12], 200);
}

#[test]
fn pixelate_uniform_region_unchanged() {
    let mut data = pattern(9, 7);
    solid_fill(&mut data, 9, 7, 1, 1, 6, 5, 40, 50, 60);
    let before = data.clone();
    pixelate(&mut data, 9, 7, 1, 1, 6, 5, 4);
    assert_eq!(data, before);
}

#[test]
fn pixelate_unit_blocks_any_region() {
    let original = pattern(8, 8);
    let mut data = original.clone();
    pixelate(&mut data, 8, 8, 3, 2, 100, 100, 1);
    assert_eq!(data, original);
    pixelate(&mut data, 8, 8, 0, 0, 8, 8, 0);
    assert_eq!(data, original);
}

#[test]
fn pixelate_keeps_alpha_and_outside() {
    let original = pattern(6, 6);
    let mut data = original.clone();
    pixelate(&mut data, 6, 6, 1, 1, 4, 4, 3);
    for y in 0..6u32 {
        for x in 0..6u32 {
            let i = at(6, x, y);
            assert_eq!(data[i + 3], original[i + 3]);
            if !((1..5).contains(&x) && (1..5).contains(&y)) {
                assert_eq!(&data[i..i + 3], &original[i..i + 3]);
            }
        }
    }
    let i = at(6, 1, 1);
    let j = at(6, 3, 3);
    assert_eq!(&data[i..i + 3], &data[j..j + 3]);
}

#[test]
fn brush_disc_is_inclusive_by_squared_distance() {
    let mut data = vec![0u8; 20 * 20 * 4];
    brush_solid_fill(&mut data, 20, 20, &[10, 10], 4, 200, 100, 50);
    assert_eq!(&data[at(20, 12, 10)..at(20, 12, 10) + 4], &[200, 100, 50, 0]);
    assert_eq!(data[at(20, 10, 8)], 200);
    assert_eq!(data[at(20, 11, 11)], 200);
    assert_eq!(data[at(20, 12, 11)], 0);
    assert_eq!(data[at(20, 13, 10)], 0);
    let filled = (0..400).filter(|p| data[p * 4] == 200).count();
    assert_eq!(filled, 13);
}

#[test]
fn brush_single_point_far_pixels_unchanged() {
    let original = pattern(30, 30);
    let mut data = original.clone();
    brush_solid_fill(&mut data, 30, 30, &[15, 15], 6, 1, 2, 3);
    assert_eq!(&data[at(30, 15, 15)..at(30, 15, 15) + 3], &[1, 2, 3]);
    for (x, y) in [(0u32, 0u32), (29, 29), (15, 19), (19, 15), (18, 18)] {
        let i = at(30, x, y);
        assert_eq!(&data[i..i + 4], &original[i..i + 4]);
    }
}

#[test]
fn brush_fill_off_canvas_points_unchanged() {
    let original = pattern(10, 10);
    let mut data = original.clone();
    brush_solid_fill(&mut data, 10, 10, &[-10, -10, 100, 100, 5, -3], 4, 9, 9, 9);
    assert_eq!(data, original);
}

#[test]
fn brush_fill_disc_reaching_in_from_outside() {
    let mut data = vec![0u8; 10 * 10 * 4];
    brush_solid_fill(&mut data, 10, 10, &[-1, 5], 4, 9, 9, 9);
    assert_eq!(data[at(10, 0, 5)], 9);
    assert_eq!(data[at(10, 1, 5)], 9);
    assert_eq!(data[at(10, 2, 5)], 0);
}

#[test]
fn brush_fill_scenario_three_points() {
    let mut data = vec![0u8; 50 * 50 * 4];
    brush_solid_fill(&mut data, 50, 50, &[10, 10, 20, 10, 30, 10], 4, 128, 128, 128);
    for x in [10u32, 20, 30] {
        let i = at(50, x, 10);
        assert_eq!(&data[i..i + 3], &[128, 128, 128]);
    }
    assert_eq!(data[at(50, 15, 10)], 0);
}

#[test]
fn brush_pixelate_masked_pixels_take_whole_block_mean() {
    let mut data = vec![0u8; 4 * 4 * 4];
    for p in 0..16usize {
        data[p * 4] = (p * 10) as u8;
    }
    brush_pixelate(&mut data, 4, 4, &[0, 0], 2, 4);
    // mask: (0,0), (1,0), (0,1); box is [0,1] x [0,1], a single 2x2 block
    let mean = ((0 + 10 + 40 + 50) / 4) as u8;
    assert_eq!(data[at(4, 0, 0)], mean);
    assert_eq!(data[at(4, 1, 0)], mean);
    assert_eq!(data[at(4, 0, 1)], mean);
    assert_eq!(data[at(4, 1, 1)], 50);
    assert_eq!(data[at(4, 2, 0)], 20);
}

#[test]
fn brush_pixelate_off_canvas_unchanged() {
    let original = pattern(10, 10);
    let mut data = original.clone();
    brush_pixelate(&mut data, 10, 10, &[-10, -10, 100, 100], 4, 2);
    assert_eq!(data, original);
}

#[test]
fn brush_pixelate_leaves_unmasked_alone() {
    let original = pattern(20, 20);
    let mut data = original.clone();
    brush_pixelate(&mut data, 20, 20, &[10, 10], 4, 3);
    for y in 0..20u32 {
        for x in 0..20u32 {
            let dx = x as i32 - 10;
            let dy = y as i32 - 10;
            let i = at(20, x, y);
            assert_eq!(data[i + 3], original[i + 3]);
            if dx * dx + dy * dy > 4 {
                assert_eq!(&data[i..i + 3], &original[i..i + 3]);
            }
        }
    }
}

#[test]
fn mask_and_bounds() {
    let m = build_mask(6, 5, &[2, 1, 7], 2);
    assert_eq!(m.len(), 30);
    let set: Vec<usize> = (0..30).filter(|&p| m[p]).collect();
    assert_eq!(set, vec![2, 7, 8, 9, 14]);
    assert_eq!(mask_bounds(&m, 6, 5), Some((1, 0, 3, 2)));
    let empty = build_mask(6, 5, &[], 8);
    assert_eq!(mask_bounds(&empty, 6, 5), None);
}

#[test]
fn clamp_end_cuts_at_limit() {
    assert_eq!(clamp_end(8, 5, 10), 10);
    assert_eq!(clamp_end(2, 3, 10), 5);
    assert_eq!(clamp_end(u32::MAX, u32::MAX, 7), 7);
}

#[test]
fn tap_range_at_edges() {
    assert_eq!(tap_range(0, 10, 2), (2, 5));
    assert_eq!(tap_range(5, 10, 2), (0, 5));
    assert_eq!(tap_range(9, 10, 2), (0, 3));
    assert_eq!(tap_range(0, 1, 3), (3, 4));
}

#[test]
fn crop_and_store_round_trip() {
    let original = pattern(5, 4);
    let region = crop_region(&original, 5, 1, 1, 4, 3);
    assert_eq!(region.len(), 3 * 2 * 4);
    let i = at(5, 2, 2);
    assert_eq!(&region[16..20], &original[i..i + 4]);
    let mut data = original.clone();
    let blank = vec![7u8; 3 * 2 * 4];
    store_region(&mut data, 5, 1, 1, 3, 2, &blank);
    assert_eq!(&data[i..i + 4], &[7, 7, 7, original[i + 3]]);
    store_region(&mut data, 5, 1, 1, 3, 2, &region);
    assert_eq!(data, original);
}
