use redact::{brush_pixelate, brush_solid_fill, pixelate, solid_fill};

fn create_test_image(width: u32, height: u32) -> Vec<u8> {
    let size = (width * height * 4) as usize;
    let mut data = vec![0u8; size];
    for y in 0..height {
        for x in 0..width {
            let idx = ((y * width + x) * 4) as usize;
            data[idx] = (x % 256) as u8;
            data[idx + 1] = (y % 256) as u8;
            data[idx + 2] = 128;
            data[idx + 3] = 255;
        }
    }
    data
}

fn px(data: &[u8], width: u32, x: u32, y: u32) -> [u8; 4] {
    let i = ((y * width + x) * 4) as usize;
    [data[i], data[i + 1], data[i + 2], data[i + 3]]
}

#[test]
fn test_solid_fill_basic() {
    let mut data = create_test_image(10, 10);
    solid_fill(&mut data, 10, 10, 2, 2, 3, 3, 255, 0, 0);
    for y in 2..5 {
        for x in 2..5 {
            let idx = ((y * 10 + x) * 4) as usize;
            assert_eq!(data[idx], 255, "Red channel at ({}, {})", x, y);
            assert_eq!(data[idx + 1], 0, "Green channel at ({}, {})", x, y);
            assert_eq!(data[idx + 2], 0, "Blue channel at ({}, {})", x, y);
        }
    }
    let idx = (0 * 10 + 0) * 4;
    assert_eq!(data[idx as usize], 0);
}

#[test]
fn test_solid_fill_clamps_to_bounds() {
    let mut data = create_test_image(10, 10);
    solid_fill(&mut data, 10, 10, 8, 8, 5, 5, 128, 128, 128);
    for y in 8..10 {
        for x in 8..10 {
            let idx = ((y * 10 + x) * 4) as usize;
            assert_eq!(data[idx], 128);
        }
    }
}

#[test]
fn test_solid_fill_preserves_alpha() {
    let mut data = create_test_image(10, 10);
    data[0 * 4 + 3] = 100;
    solid_fill(&mut data, 10, 10, 0, 0, 1, 1, 255, 255, 255);
    assert_eq!(data[0 * 4 + 3], 100);
}

#[test]
fn test_pixelate_basic() {
    let mut data = create_test_image(10, 10);
    for i in 0..data.len() {
        data[i] = 100;
    }
    pixelate(&mut data, 10, 10, 0, 0, 4, 4, 2);
    let first_r = data[0];
    let first_g = data[1];
    let first_b = data[2];
    for y in 0..4 {
        for x in 0..4 {
            let idx = ((y * 10 + x) * 4) as usize;
            assert_eq!(data[idx], first_r);
            assert_eq!(data[idx + 1], first_g);
            assert_eq!(data[idx + 2], first_b);
        }
    }
}

#[test]
fn test_pixelate_block_size_one_no_change() {
    let original = create_test_image(10, 10);
    let mut data = original.clone();
    pixelate(&mut data, 10, 10, 0, 0, 10, 10, 1);
    assert_eq!(data, original);
}

#[test]
fn test_pixelate_clamps_block_size() {
    let mut data = create_test_image(10, 10);
    pixelate(&mut data, 10, 10, 0, 0, 4, 4, 0);
    assert_eq!(data.len(), 400);
}

#[test]
fn test_brush_solid_fill_basic() {
    let mut data = create_test_image(20, 20);
    let points = vec![10, 10];
    brush_solid_fill(&mut data, 20, 20, &points, 4, 255, 0, 0);
    let center_idx = (10 * 20 + 10) * 4;
    assert_eq!(data[center_idx as usize], 255);
    assert_eq!(data[center_idx as usize + 1], 0);
    assert_eq!(data[center_idx as usize + 2], 0);
}

#[test]
fn test_brush_solid_fill_circular() {
    let mut data = vec![0u8; 100 * 100 * 4];
    let points = vec![50, 50];
    brush_solid_fill(&mut data, 100, 100, &points, 10, 255, 255, 255);
    let center_idx = (50 * 100 + 50) * 4;
    assert_eq!(data[center_idx as usize], 255);
    let corner_idx = (0 * 100 + 0) * 4;
    assert_eq!(data[corner_idx as usize], 0);
}

#[test]
fn test_brush_solid_fill_multiple_points() {
    let mut data = vec![0u8; 50 * 50 * 4];
    let points = vec![10, 10, 20, 10, 30, 10];
    brush_solid_fill(&mut data, 50, 50, &points, 4, 128, 128, 128);
    for x in [10, 20, 30] {
        let idx = (10 * 50 + x) * 4;
        assert_eq!(data[idx as usize], 128);
    }
}

#[test]
fn test_brush_solid_fill_empty_points() {
    let original = create_test_image(10, 10);
    let mut data = original.clone();
    let points: Vec<i32> = vec![];
    brush_solid_fill(&mut data, 10, 10, &points, 4, 255, 0, 0);
    assert_eq!(data, original);
}

#[test]
fn test_brush_solid_fill_odd_points_count() {
    let mut data = vec![0u8; 50 * 50 * 4];
    let points = vec![10, 10, 20];
    brush_solid_fill(&mut data, 50, 50, &points, 4, 255, 0, 0);
    let idx = (10 * 50 + 10) * 4;
    assert_eq!(data[idx as usize], 255);
}

#[test]
fn test_brush_pixelate_basic() {
    let mut data = create_test_image(50, 50);
    let points = vec![25, 25];
    brush_pixelate(&mut data, 50, 50, &points, 10, 4);
    assert_eq!(data.len(), 50 * 50 * 4);
}

#[test]
fn test_brush_pixelate_empty_points() {
    let original = create_test_image(10, 10);
    let mut data = original.clone();
    let points: Vec<i32> = vec![];
    brush_pixelate(&mut data, 10, 10, &points, 4, 2);
    assert_eq!(data, original);
}

#[test]
fn test_brush_pixelate_out_of_bounds() {
    let mut data = create_test_image(10, 10);
    let points = vec![-10, -10, 100, 100];
    brush_pixelate(&mut data, 10, 10, &points, 4, 2);
    assert_eq!(data.len(), 400);
}
