use mosaic::config::{default_threads, prompt_decision, sizes_valid, Args};
use mosaic::descriptor::{edge_map, mean_color, orient_value, orientation_map};
use mosaic::img::Img;
use mosaic::mask::{apply_mask, isqrt};
use mosaic::mosaic::generate_image_pixel_mode;
use mosaic::palette::{generate_pixel_palette, resize_to, MosaicError};
use mosaic::score::{ssim_parts, window_desc};
use mosaic::select::find_closest_image;
use mosaic::resize_dims;

fn solid(w: usize, h: usize, rgba: [u8; 4]) -> Img {
    let mut bytes = Vec::new();
    for _ in 0..w * h {
        bytes.extend_from_slice(&rgba);
    }
    Img::from_rgba8(w, h, &bytes)
}

fn from_pixels(w: usize, h: usize, px: &[[u8; 4]]) -> Img {
    assert_eq!(px.len(), w * h);
    let mut bytes = Vec::new();
    for p in px {
        bytes.extend_from_slice(p);
    }
    Img::from_rgba8(w, h, &bytes)
}

#[test]
fn resize_dims_larger_side_hits_max() {
    assert_eq!(resize_dims((1920, 1080), 128), (128, 72));
    assert_eq!(resize_dims((1080, 1920), 128), (72, 128));
    assert_eq!(resize_dims((50, 50), 16), (16, 16));
    // truncation keeps the aspect ratio within one unit
    assert_eq!(resize_dims((3, 2), 16), (16, 10));
}

#[test]
fn resize_dims_square_and_degenerate() {
    // a very thin image can scale a dimension down to zero
    assert_eq!(resize_dims((1000, 1), 16), (16, 0));
    assert_eq!(resize_dims((7, 7), 7), (7, 7));
}

#[test]
fn isqrt_values() {
    assert_eq!(isqrt(0), 0);
    assert_eq!(isqrt(1), 1);
    assert_eq!(isqrt(15), 3);
    assert_eq!(isqrt(16), 4);
    assert_eq!(isqrt(65536 * 65536), 65536);
}

#[test]
fn edge_map_of_uniform_image_is_zero() {
    let img = solid(5, 4, [17, 200, 3, 255]);
    let e = edge_map(&img);
    assert_eq!(e.width, 5);
    assert_eq!(e.height, 4);
    for y in 0..4 {
        for x in 0..5 {
            for c in 0..4 {
                assert_eq!(e.get(x, y, c), 0);
            }
        }
    }
}

#[test]
fn edge_map_exact_laplacian() {
    // one bright pixel in the middle of a dark row
    let img = from_pixels(
        3,
        1,
        &[[0, 0, 0, 0], [100, 0, 0, 0], [0, 0, 0, 0]],
    );
    let e = edge_map(&img);
    // center: 4*100 - 0 - 0 - 100 - 100 (vertical neighbours clamp to itself)
    assert_eq!(e.get(1, 0, 0), 200);
    // left border: 4*0 - 0(clamped) - 100 - 0 - 0
    assert_eq!(e.get(0, 0, 0), -100);
}

#[test]
fn orientation_of_flat_gradient_is_unit() {
    assert_eq!(orient_value(0, 0), 256);
    let img = solid(3, 3, [90, 90, 90, 90]);
    let o = orientation_map(&img);
    for y in 0..3 {
        for x in 0..3 {
            for c in 0..4 {
                assert_eq!(o.get(x, y, c), 256);
            }
        }
    }
}

#[test]
fn orientation_quadrant_values() {
    // straight up: a quarter turn, so the unit minus one quarter-turn is zero
    assert_eq!(orient_value(100, 0), 0);
    // straight right: zero angle, the unit stays
    assert_eq!(orient_value(0, 100), 256);
    // straight down: minus a quarter turn
    assert_eq!(orient_value(-100, 0), 512);
}

#[test]
fn masks_are_complementary() {
    let img = solid(4, 3, [1, 1, 1, 1]);
    let inner = apply_mask(&img, true);
    let outer = apply_mask(&img, false);
    let hyp = isqrt(4 * 4 + 3 * 3) as i64;
    assert_eq!(hyp, 5);
    for y in 0..3 {
        for x in 0..4 {
            for c in 0..4 {
                // samples are ones, so the masked samples are the mask values
                assert_eq!(inner.get(x, y, c) + outer.get(x, y, c), hyp);
            }
        }
    }
}

#[test]
fn mask_center_weighting() {
    let img = solid(4, 4, [1, 1, 1, 1]);
    let inner = apply_mask(&img, true);
    // the geometric center pixel is at distance zero
    assert_eq!(inner.get(2, 2, 0), 0);
    // the far corner is the farthest
    assert!(inner.get(0, 0, 0) > inner.get(2, 1, 0));
}

#[test]
fn mean_color_exact() {
    let img = from_pixels(
        2,
        1,
        &[[10, 0, 255, 4], [20, 1, 255, 5]],
    );
    let m = mean_color(&img);
    assert_eq!(m.ch, vec![15, 0, 255, 4]);
}

#[test]
fn ssim_parts_identical_images_are_unit() {
    let img = from_pixels(
        2,
        2,
        &[[10, 20, 30, 255], [200, 10, 0, 255], [0, 0, 0, 0], [90, 91, 92, 128]],
    );
    let copy = img.duplicate();
    let (s, c, l) = ssim_parts(&img, &copy);
    assert_eq!((s, c, l), (65536, 65536, 65536));
}

#[test]
fn ssim_parts_stay_in_range() {
    let a = from_pixels(2, 1, &[[0, 0, 0, 255], [255, 255, 255, 255]]);
    let b = from_pixels(2, 1, &[[255, 255, 255, 255], [0, 0, 0, 255]]);
    let (s, c, l) = ssim_parts(&a, &b);
    assert!((0..=65536).contains(&s));
    assert!((0..=65536).contains(&c));
    assert!((0..=65536).contains(&l));
    // anti-correlated structure counts as none
    assert_eq!(s, 0);
}

#[test]
fn selector_prefers_identical_tile() {
    let colors: [[u8; 4]; 4] = [
        [255, 0, 0, 255],
        [0, 255, 0, 255],
        [0, 0, 255, 255],
        [255, 255, 255, 255],
    ];
    let entries: Vec<Option<Img>> = colors.iter().map(|c| Some(solid(2, 2, *c))).collect();
    let palette = generate_pixel_palette(&entries, 2).unwrap();
    assert_eq!(palette.len(), 4);
    for (k, c) in colors.iter().enumerate() {
        let wd = window_desc(solid(2, 2, *c));
        let best = find_closest_image(&wd, &palette, 2, 4);
        assert_eq!(best, k);
    }
}

#[test]
fn palette_skips_invalid_entries() {
    let entries: Vec<Option<Img>> = vec![
        Some(solid(2, 2, [1, 2, 3, 255])),
        Some(solid(2, 2, [4, 5, 6, 255])),
        Some(solid(2, 2, [7, 8, 9, 255])),
        None,
        Some(solid(2, 2, [10, 11, 12, 255])),
        Some(solid(2, 2, [13, 14, 15, 255])),
    ];
    let palette = generate_pixel_palette(&entries, 2).unwrap();
    assert_eq!(palette.len(), 5);
    for (k, t) in palette.iter().enumerate() {
        assert_eq!(t.id, k);
        assert_eq!(t.count, 0);
    }
    // the skipped entry leaves no gap: the fourth tile is the fifth entry
    assert_eq!(palette[3].image.get(0, 0, 0), 10);
}

#[test]
fn palette_of_no_images_is_fatal() {
    let entries: Vec<Option<Img>> = vec![None, None];
    assert!(matches!(
        generate_pixel_palette(&entries, 16),
        Err(MosaicError::EmptyPalette)
    ));
}

#[test]
fn palette_of_degenerate_shape_is_fatal() {
    // a sliver whose scaled height truncates to zero
    let entries: Vec<Option<Img>> = vec![Some(solid(1000, 1, [1, 1, 1, 255]))];
    assert!(matches!(
        generate_pixel_palette(&entries, 16),
        Err(MosaicError::SizeOutOfRange)
    ));
}

#[test]
fn palette_resizes_to_common_size() {
    let entries: Vec<Option<Img>> = vec![
        Some(solid(8, 4, [50, 60, 70, 255])),
        Some(solid(3, 5, [1, 2, 3, 255])),
    ];
    let palette = generate_pixel_palette(&entries, 4).unwrap();
    // the first entry fixes the shape: 8x4 scaled to the larger side 4 is 4x2
    for t in &palette {
        assert_eq!((t.image.width, t.image.height), (4, 2));
    }
}

#[test]
fn mosaic_canvas_dimensions_exact() {
    let entries: Vec<Option<Img>> = vec![Some(solid(2, 2, [9, 9, 9, 255]))];
    let mut palette = generate_pixel_palette(&entries, 2).unwrap();
    let target = solid(5, 7, [9, 9, 9, 255]);
    // the target resizes to 5x7 scaled so the larger side is 7: (5, 7)
    let out = generate_image_pixel_mode(&target, &mut palette, 7).unwrap();
    // cols = ceil((5-2+1)/2) = 2, rows = ceil((7-2+1)/2) = 3
    assert_eq!((out.width, out.height), (4, 6));
}

#[test]
fn mosaic_rejects_target_smaller_than_tile() {
    let entries: Vec<Option<Img>> = vec![Some(solid(4, 4, [9, 9, 9, 255]))];
    let mut palette = generate_pixel_palette(&entries, 4).unwrap();
    let target = solid(8, 8, [9, 9, 9, 255]);
    // scaled to the larger side 3, the target is smaller than the tile
    assert!(matches!(
        generate_image_pixel_mode(&target, &mut palette, 3),
        Err(MosaicError::SizeOutOfRange)
    ));
    // nothing was counted
    assert_eq!(palette[0].count, 0);
}

#[test]
fn alpha_fallback_stamps_mean_luma() {
    // the single palette tile is fully transparent
    let entries: Vec<Option<Img>> = vec![Some(solid(2, 2, [10, 20, 30, 0]))];
    let mut palette = generate_pixel_palette(&entries, 2).unwrap();
    let target = solid(2, 2, [100, 150, 200, 255]);
    let out = generate_image_pixel_mode(&target, &mut palette, 2).unwrap();
    // luma = (100 + 150 + 200) / 3 = 150; alpha follows the window mean
    for y in 0..2 {
        for x in 0..2 {
            assert_eq!(out.get(x, y, 0), 150);
            assert_eq!(out.get(x, y, 1), 150);
            assert_eq!(out.get(x, y, 2), 150);
            assert_eq!(out.get(x, y, 3), 255);
        }
    }
}

#[test]
fn end_to_end_four_solid_quadrants() {
    let colors: [[u8; 4]; 4] = [
        [255, 0, 0, 255],
        [0, 255, 0, 255],
        [0, 0, 255, 255],
        [255, 255, 255, 255],
    ];
    let entries: Vec<Option<Img>> = colors.iter().map(|c| Some(solid(2, 2, *c))).collect();
    let mut palette = generate_pixel_palette(&entries, 2).unwrap();
    // a 4x4 target whose 2x2 quadrants are red, green, blue, white
    let mut px: Vec<[u8; 4]> = Vec::new();
    for y in 0..4 {
        for x in 0..4 {
            let q = (y / 2) * 2 + x / 2;
            px.push(colors[q]);
        }
    }
    let target = from_pixels(4, 4, &px);
    let out = generate_image_pixel_mode(&target, &mut palette, 4).unwrap();
    assert_eq!((out.width, out.height), (4, 4));
    // each output quadrant equals the matching solid tile verbatim
    for y in 0..4 {
        for x in 0..4 {
            let q = (y / 2) * 2 + x / 2;
            for c in 0..4 {
                assert_eq!(out.get(x, y, c), colors[q][c] as i64, "at {x},{y},{c}");
            }
        }
    }
    // every tile was used exactly once, counted after its window finished
    for t in &palette {
        assert_eq!(t.count, 1);
    }
}

#[test]
fn lanczos_resize_produces_requested_dimensions() {
    let img = solid(8, 8, [120, 60, 30, 255]);
    let small = resize_to(&img, 2, 2);
    assert_eq!((small.width, small.height), (2, 2));
    // resampling a uniform image cannot invent other colors at the center
    let v = small.get(0, 0, 0);
    assert!((0..=255).contains(&v));
    // a same-size pass leaves the image untouched
    let same = resize_to(&img, 8, 8);
    for y in 0..8 {
        for x in 0..8 {
            for c in 0..4 {
                assert_eq!(same.get(x, y, c), img.get(x, y, c));
            }
        }
    }
}

#[test]
fn round_trip_rgba8_bytes() {
    let bytes: Vec<u8> = (0..16u8).collect();
    let img = Img::from_rgba8(2, 2, &bytes);
    assert_eq!(img.to_rgba8(), bytes);
}

#[test]
fn crop_extracts_window() {
    let px: Vec<[u8; 4]> = (0..6).map(|i| [i as u8, 0, 0, 255]).collect();
    let img = from_pixels(3, 2, &px);
    let win = img.crop(1, 0, 2, 2);
    assert_eq!((win.width, win.height), (2, 2));
    assert_eq!(win.get(0, 0, 0), 1);
    assert_eq!(win.get(1, 1, 0), 5);
}

#[test]
fn prompt_decision_cases() {
    assert_eq!(prompt_decision(4, 128, Some(16), 16), Some(16));
    assert_eq!(prompt_decision(4, 128, Some(128), 16), None);
    assert_eq!(prompt_decision(4, 128, Some(3), 16), None);
    assert_eq!(prompt_decision(4, 128, None, 16), Some(16));
    assert_eq!(prompt_decision(4, 128, None, -1), None);
}

#[test]
fn config_defaults() {
    assert_eq!(default_threads(10), 3);
    assert_eq!(default_threads(1), 1);
    assert!(sizes_valid(16, 512));
    assert!(!sizes_valid(3, 512));
    assert!(!sizes_valid(16, 8));
    let args = Args {
        threads: 0,
        fpath: String::new(),
        ppath: String::new(),
        psize: 0,
        fsize: 0,
        ask: false,
    };
    let filled = args.with_defaults(10);
    assert_eq!(filled.threads, 3);
    assert_eq!(filled.psize, 16);
    assert_eq!(filled.fsize, 512);
}
