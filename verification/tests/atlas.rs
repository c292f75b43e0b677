use thermal::atlas::Atlas;

fn image(width: u32, height: u32, seed: u8) -> Vec<u8> {
    (0..width * height * 4).map(|i| seed.wrapping_add(i as u8)).collect()
}

fn pixel(atlas: &Atlas, x: u32, y: u32) -> &[u8] {
    let start = ((y * atlas.width() + x) * atlas.pixel_size()) as usize;
    &atlas.slice()[start..start + atlas.pixel_size() as usize]
}

#[test]
fn new_atlas_is_empty() {
    let atlas = Atlas::new(4, 3, 4);
    assert_eq!(atlas.width(), 4);
    assert_eq!(atlas.height(), 3);
    assert_eq!(atlas.pixel_size(), 4);
    assert_eq!(atlas.slice().len(), 48);
    assert!(atlas.slice().iter().all(|b| *b == 0));
}

#[test]
fn find_point_on_empty_atlas() {
    let atlas = Atlas::new(4, 4, 4);
    assert_eq!(atlas.find_point(2, 2), Some((0, 0, 0)));
    assert_eq!(atlas.find_point(4, 4), Some((0, 0, 0)));
    assert_eq!(atlas.find_point(5, 1), None);
    assert_eq!(atlas.find_point(1, 5), None);
}

#[test]
fn images_pack_left_to_right_then_down() {
    let mut atlas = Atlas::new(4, 4, 4);
    assert_eq!(atlas.add(&image(2, 2, 1), 2, 2), (0, 0));
    assert_eq!(atlas.add(&image(2, 2, 50), 2, 2), (2, 0));
    assert_eq!(atlas.add(&image(4, 1, 100), 4, 1), (0, 2));
    assert_eq!(atlas.width(), 4);
    assert_eq!(atlas.height(), 4);
}

#[test]
fn find_point_prefers_lowest_then_leftmost() {
    let mut atlas = Atlas::new(8, 8, 4);
    atlas.add(&image(2, 3, 1), 2, 3);
    atlas.add(&image(2, 1, 1), 2, 1);
    // Skyline: x 0..2 at 3, 2..4 at 1, 4..8 at 0.
    assert_eq!(atlas.find_point(2, 2), Some((0, 2, 2)));
    assert_eq!(atlas.find_point(4, 2), Some((0, 2, 2)));
    assert_eq!(atlas.find_point(6, 2), Some((1, 1, 2)));
}

#[test]
fn atlas_grows_when_full_and_keeps_pixels() {
    let mut atlas = Atlas::new(4, 4, 4);
    let first = image(2, 2, 1);
    atlas.add(&first, 2, 2);
    atlas.add(&image(2, 2, 50), 2, 2);
    atlas.add(&image(4, 1, 100), 4, 1);
    assert_eq!(atlas.find_point(4, 2), None);
    assert_eq!(atlas.add(&image(4, 2, 200), 4, 2), (4, 0));
    assert_eq!(atlas.width(), 8);
    assert_eq!(atlas.height(), 4);
    assert_eq!(atlas.slice().len(), 8 * 4 * 4);
    assert_eq!(pixel(&atlas, 0, 0), &first[0..4]);
    assert_eq!(pixel(&atlas, 1, 1), &first[12..16]);
    assert_eq!(pixel(&atlas, 7, 3), &[0, 0, 0, 0]);
    assert_eq!(pixel(&atlas, 4, 0), &[200, 201, 202, 203]);
}

#[test]
fn added_pixels_read_back() {
    let mut atlas = Atlas::new(4, 4, 4);
    let img = image(3, 2, 7);
    let (x, y) = atlas.add(&img, 3, 2);
    for row in 0..2u32 {
        for col in 0..3u32 {
            let at = ((row * 3 + col) * 4) as usize;
            assert_eq!(pixel(&atlas, x + col, y + row), &img[at..at + 4]);
        }
    }
    assert_eq!(pixel(&atlas, 3, 0), &[0, 0, 0, 0]);
    assert_eq!(pixel(&atlas, 0, 2), &[0, 0, 0, 0]);
}

#[test]
fn add_stride_skips_row_padding() {
    let mut atlas = Atlas::new(4, 4, 4);
    let mut padded = vec![0u8; 2 * 12];
    for (i, b) in padded.iter_mut().enumerate() {
        *b = i as u8;
    }
    assert_eq!(atlas.add_stride(&padded, 2, 2, 12), (0, 0));
    assert_eq!(pixel(&atlas, 0, 1), &[12, 13, 14, 15]);
    assert_eq!(pixel(&atlas, 1, 1), &[16, 17, 18, 19]);
}

#[test]
fn grow_tall_image_takes_power_of_two() {
    let mut atlas = Atlas::new(2, 2, 4);
    assert_eq!(atlas.add(&image(1, 5, 3), 1, 5), (0, 0));
    assert_eq!(atlas.width(), 4);
    assert_eq!(atlas.height(), 8);
}

#[test]
fn packed_images_never_overlap() {
    let mut atlas = Atlas::new(16, 16, 4);
    let sizes = [(5, 3), (4, 4), (7, 2), (3, 6), (9, 1), (2, 2), (6, 5), (1, 1), (8, 3), (4, 9)];
    let mut placed: Vec<(u32, u32, u32, u32)> = vec![];
    for (i, &(w, h)) in sizes.iter().enumerate() {
        let (x, y) = atlas.add(&image(w, h, i as u8), w, h);
        assert!(x + w <= atlas.width() && y + h <= atlas.height());
        for &(px, py, pw, ph) in &placed {
            let apart = x + w <= px || px + pw <= x || y + h <= py || py + ph <= y;
            assert!(apart, "{:?} overlaps {:?}", (x, y, w, h), (px, py, pw, ph));
        }
        placed.push((x, y, w, h));
    }
}

#[test]
fn try_add_places_like_add() {
    let mut tried = Atlas::new(4, 4, 4);
    let mut added = Atlas::new(4, 4, 4);
    for (i, &(w, h)) in [(2u32, 2u32), (2, 2), (4, 1), (4, 2)].iter().enumerate() {
        let img = image(w, h, i as u8);
        assert_eq!(tried.try_add(&img, w, h), Some(added.add(&img, w, h)));
    }
    assert_eq!(tried.width(), added.width());
    assert_eq!(tried.height(), added.height());
    assert_eq!(tried.slice(), added.slice());
}

#[test]
fn try_add_refuses_short_slice_and_keeps_atlas() {
    let mut atlas = Atlas::new(4, 4, 4);
    atlas.add(&image(2, 2, 1), 2, 2);
    let before = atlas.slice().to_vec();
    assert_eq!(atlas.try_add(&image(2, 2, 9)[..15], 2, 2), None);
    assert_eq!(atlas.try_add_stride(&image(2, 2, 9), 2, 2, 9), None);
    assert_eq!(atlas.slice(), &before[..]);
    assert_eq!(atlas.find_point(2, 2), Some((0, 1, 1)));
    assert_eq!(atlas.try_add(&image(2, 2, 9), 2, 2), Some((2, 0)));
}

#[test]
fn try_add_refuses_what_cannot_fit_a_u32() {
    let mut atlas = Atlas::new(4, 4, 4);
    assert_eq!(atlas.try_add(&[], 0x4000_0000, 1), None);
    assert_eq!(atlas.try_add_stride(&[], 0x10_0000, 0x10_0000, 0), None);
    assert_eq!(atlas.width(), 4);
    assert_eq!(atlas.height(), 4);
}

#[test]
fn smaller_image_fits_no_higher() {
    let mut atlas = Atlas::new(8, 8, 4);
    atlas.add(&image(2, 3, 1), 2, 3);
    atlas.add(&image(2, 1, 1), 2, 1);
    let (y1, _, _) = atlas.find_point(6, 2).unwrap();
    for (w, h) in [(6, 2), (5, 2), (4, 1), (2, 2), (1, 1), (0, 0)] {
        let (y2, _, _) = atlas.find_point(w, h).unwrap();
        assert!(y2 <= y1, "{}x{} at {} above {}", w, h, y2, y1);
    }
}
