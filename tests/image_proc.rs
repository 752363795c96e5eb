use receipt_printer::image_proc::{
    apply_contrast, apply_lut, auto_levels, floyd_steinberg_dither, mean_brightness,
    preprocess_for_thermal, select_tone, thermal_pipeline, unsharp_mask, GammaTables, GrayImage,
    ImageFailure, ToneCurve, PRINTER_WIDTH_PX,
};

fn gamma_table(gamma: f32) -> [u8; 256] {
    let mut t = [0u8; 256];
    for v in 0..256usize {
        let c = (v as f32 / 255.0).powf(1.0 / gamma);
        t[v] = (c * 255.0).round().min(255.0) as u8;
    }
    t
}

fn tables() -> GammaTables {
    GammaTables { dark: gamma_table(1.5), medium: gamma_table(1.3), bright: gamma_table(1.15) }
}

#[test]
fn dither_produces_only_black_and_white() {
    let mut img = GrayImage::from_pixel(100, 1, 0);
    for x in 0..100usize {
        img.pixels[x] = (x as f32 * 2.55) as u8;
    }
    floyd_steinberg_dither(&mut img);
    for pixel in &img.pixels {
        assert!(*pixel == 0 || *pixel == 255, "Expected 0 or 255, got {}", pixel);
    }
}

#[test]
fn dither_white_stays_white() {
    let mut img = GrayImage::from_pixel(10, 10, 255);
    floyd_steinberg_dither(&mut img);
    for pixel in &img.pixels {
        assert_eq!(*pixel, 255);
    }
}

#[test]
fn dither_black_stays_black() {
    let mut img = GrayImage::from_pixel(10, 10, 0);
    floyd_steinberg_dither(&mut img);
    for pixel in &img.pixels {
        assert_eq!(*pixel, 0);
    }
}

#[test]
fn mean_brightness_correct() {
    let img = GrayImage::from_pixel(10, 10, 100);
    assert_eq!(mean_brightness(&img), 100);
}

#[test]
fn dither_midtone_has_mix() {
    let mut img = GrayImage::from_pixel(100, 100, 128);
    floyd_steinberg_dither(&mut img);
    let black_count = img.pixels.iter().filter(|p| **p == 0).count();
    let total = 10_000;
    assert!(
        black_count > total * 40 / 100 && black_count < total * 60 / 100,
        "Expected ~50% black, got {}%",
        black_count * 100 / total
    );
}

#[test]
fn dither_diffuses_error_to_neighbours() {
    // 100 -> 0 sends 43 right, making the next cell 143, which turns white.
    let mut img = GrayImage { width: 3, height: 2, pixels: vec![100, 100, 0, 0, 0, 0] };
    floyd_steinberg_dither(&mut img);
    assert_eq!(img.pixels, vec![0, 255, 0, 0, 0, 0]);
}

#[test]
fn mean_of_empty_and_mixed() {
    let empty = GrayImage { width: 0, height: 0, pixels: vec![] };
    assert_eq!(mean_brightness(&empty), 128);
    let img = GrayImage { width: 3, height: 1, pixels: vec![0, 10, 255] };
    assert_eq!(mean_brightness(&img), 88);
}

#[test]
fn contrast_pivots_on_mid_gray() {
    let mut img = GrayImage { width: 5, height: 1, pixels: vec![0, 100, 128, 200, 255] };
    apply_contrast(&mut img, 140);
    // (v - 128) * 1.4 + 128, rounded, clamped
    assert_eq!(img.pixels, vec![0, 89, 128, 229, 255]);
}

#[test]
fn contrast_rounds_halves_up() {
    let mut img = GrayImage { width: 2, height: 1, pixels: vec![133, 123] };
    apply_contrast(&mut img, 110);
    // 133.5 -> 134, 122.5 -> 123
    assert_eq!(img.pixels, vec![134, 123]);
}

#[test]
fn levels_stretch_to_full_range() {
    let mut pixels = vec![50u8; 50];
    pixels.extend(vec![150u8; 50]);
    let mut img = GrayImage { width: 10, height: 10, pixels };
    auto_levels(&mut img);
    assert!(img.pixels[..50].iter().all(|p| *p == 0));
    assert!(img.pixels[50..].iter().all(|p| *p == 255));
}

#[test]
fn levels_map_linearly_between_percentiles() {
    let mut pixels = vec![0u8; 10];
    pixels.extend(vec![100u8; 80]);
    pixels.extend(vec![200u8; 10]);
    let mut img = GrayImage { width: 100, height: 1, pixels };
    auto_levels(&mut img);
    // 2nd percentile 0, 98th percentile 200: 100 -> round(100 * 255 / 200) = 128
    assert_eq!(img.pixels[0], 0);
    assert_eq!(img.pixels[50], 128);
    assert_eq!(img.pixels[99], 255);
}

#[test]
fn levels_leave_flat_image_alone() {
    let mut img = GrayImage::from_pixel(10, 10, 77);
    auto_levels(&mut img);
    assert!(img.pixels.iter().all(|p| *p == 77));
}

#[test]
fn unsharp_sharpens_interior_only() {
    let mut img = GrayImage { width: 3, height: 3, pixels: vec![10, 10, 10, 10, 100, 10, 10, 10, 10] };
    unsharp_mask(&mut img);
    // blurred = 180 / 9 = 20; 100 + (100 - 20) / 2 = 140
    assert_eq!(img.pixels, vec![10, 10, 10, 10, 140, 10, 10, 10, 10]);
}

#[test]
fn lut_maps_every_pixel() {
    let mut lut = [0u8; 256];
    for v in 0..256usize {
        lut[v] = 255 - v as u8;
    }
    let mut img = GrayImage { width: 2, height: 1, pixels: vec![0, 200] };
    apply_lut(&mut img, &lut);
    assert_eq!(img.pixels, vec![255, 55]);
}

#[test]
fn tone_bands_by_brightness() {
    assert_eq!(select_tone(60), ToneCurve { contrast_pct: 110, gamma_pct: 150 });
    assert_eq!(select_tone(89), ToneCurve { contrast_pct: 110, gamma_pct: 150 });
    assert_eq!(select_tone(90), ToneCurve { contrast_pct: 125, gamma_pct: 130 });
    assert_eq!(select_tone(129), ToneCurve { contrast_pct: 125, gamma_pct: 130 });
    assert_eq!(select_tone(130), ToneCurve { contrast_pct: 140, gamma_pct: 115 });
}

#[test]
fn dark_image_gets_more_gamma_lift() {
    let mut dark = GrayImage::from_pixel(100, 100, 60);
    let mut bright = GrayImage::from_pixel(100, 100, 180);

    let dark_tone = select_tone(mean_brightness(&dark));
    let bright_tone = select_tone(mean_brightness(&bright));
    let t = tables();
    let table_for = |pct: u32| if pct == 150 { t.dark } else if pct == 130 { t.medium } else { t.bright };

    apply_contrast(&mut dark, dark_tone.contrast_pct);
    apply_lut(&mut dark, &table_for(dark_tone.gamma_pct));
    apply_contrast(&mut bright, bright_tone.contrast_pct);
    apply_lut(&mut bright, &table_for(bright_tone.gamma_pct));

    assert!(
        dark.pixels[0] > 80,
        "Dark image pixel should be lifted above 80, got {}",
        dark.pixels[0]
    );
}

#[test]
fn pipeline_output_is_one_bit() {
    let mut img = GrayImage { width: 16, height: 16, pixels: (0..256).map(|v| v as u8).collect() };
    thermal_pipeline(&mut img, &tables());
    assert_eq!(img.pixels.len(), 256);
    assert!(img.pixels.iter().all(|p| *p == 0 || *p == 255));
    assert!(img.pixels.iter().any(|p| *p == 0) && img.pixels.iter().any(|p| *p == 255));
}

#[test]
fn preprocess_rejects_garbage_bytes() {
    assert_eq!(preprocess_for_thermal(b"not an image", &tables()).unwrap_err(), ImageFailure::Decode);
}

#[test]
fn preprocess_fits_width_and_encodes_png() {
    let src = image::GrayImage::from_fn(64, 32, |x, _| image::Luma([(x * 4) as u8]));
    let mut png = std::io::Cursor::new(Vec::new());
    image::DynamicImage::ImageLuma8(src).write_to(&mut png, image::ImageFormat::Png).unwrap();
    let out = preprocess_for_thermal(&png.into_inner(), &tables()).unwrap();
    let decoded = image::load_from_memory(&out).unwrap().to_luma8();
    assert_eq!(decoded.width(), PRINTER_WIDTH_PX);
    assert_eq!(decoded.height(), 256);
    assert!(decoded.pixels().all(|p| p[0] == 0 || p[0] == 255));
}

#[test]
fn gamma_tables_lift() {
    assert!(tables().check());
    let mut identity = [0u8; 256];
    for v in 0..256usize {
        identity[v] = v as u8;
    }
    assert!(receipt_printer::image_proc::check_lifts(&identity));
    let mut dip = identity;
    dip[10] = 5;
    assert!(!receipt_printer::image_proc::check_lifts(&dip));
    let mut down = identity;
    down[200] = 250;
    assert!(!receipt_printer::image_proc::check_lifts(&down));
}
