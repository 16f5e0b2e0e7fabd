use skinartplus::commands::image::{missing_tile_msg, output_dir_name, shows_numbers, skin_file_name, GenerateAllOptions};
use skinartplus::commands::image::{digit_overlay, generate_skin, load_72x24, overlay_resized, tile_buffers, tile_number, RgbaImage};
use skinartplus::commands::namemc::skin_face_png;

fn png_bytes(w: u32, h: u32, f: impl Fn(u32, u32) -> [u8; 4]) -> Vec<u8> {
    let img = image::RgbaImage::from_fn(w, h, |x, y| image::Rgba(f(x, y)));
    let mut out = Vec::new();
    image::DynamicImage::ImageRgba8(img)
        .write_to(&mut std::io::Cursor::new(&mut out), image::ImageFormat::Png)
        .unwrap();
    out
}

fn reencode(img: image::RgbaImage) -> Vec<u8> {
    let mut out = Vec::new();
    image::DynamicImage::ImageRgba8(img)
        .write_to(&mut std::io::Cursor::new(&mut out), image::ImageFormat::Png)
        .unwrap();
    out
}

fn decode(png: &[u8]) -> image::RgbaImage {
    image::load_from_memory(png).unwrap().to_rgba8()
}

fn px(img: &RgbaImage, x: u32, y: u32) -> [u8; 4] {
    img.get_pixel(x, y)
}

const WHITE: [u8; 4] = [255, 255, 255, 255];
const CLEAR: [u8; 4] = [0, 0, 0, 0];

#[test]
fn debug_generate() {
    let path = r"C:\Users\global pc\rust\SkinartPlus\templates\images\iraq.png";
    let template = png_bytes(64, 64, |_, _| [0, 0, 0, 0]);
    let watermark = png_bytes(64, 64, |_, _| [0, 0, 0, 0]);
    // The artwork at `path` lives on the author's machine; elsewhere a
    // generated 72x24 artwork takes its place.
    let bytes = match image::open(path) {
        Ok(img) => reencode(img.to_rgba8()),
        Err(e) => {
            println!("{} unavailable ({}), using a generated artwork", path, e);
            png_bytes(72, 24, |x, y| [(x * 3) as u8, (y * 10) as u8, ((x + y) % 2 * 255) as u8, 255])
        }
    };
    let art = load_72x24(&bytes).expect("load");
    let tiles = tile_buffers(&art);
    println!("tiles={}", tiles.len());
    for num in 1..=26 {
        match generate_skin(num, tiles.get(&num).unwrap(), None, &template, &watermark, true) {
            Ok(png) => println!("num={} ok len={}", num, png.len()),
            Err(e) => {
                println!("ERR num={} : {}", num, e);
                return;
            }
        }
    }
    println!("ALL OK");
}

#[test]
fn tiles_are_numbered_from_the_bottom_right() {
    assert_eq!(tile_number(0, 0), 27);
    assert_eq!(tile_number(0, 8), 19);
    assert_eq!(tile_number(1, 0), 18);
    assert_eq!(tile_number(2, 8), 1);
}

#[test]
fn tile_buffers_cut_the_artwork_into_27_tiles() {
    let png = png_bytes(72, 24, |x, y| [x as u8, y as u8, 7, 255]);
    let art = load_72x24(&png).unwrap();
    assert_eq!((art.width, art.height), (72, 24));
    let tiles = tile_buffers(&art);
    assert_eq!(tiles.len(), 27);
    for num in 1..=27i32 {
        let row = ((27 - num) / 9) as u32;
        let col = ((27 - num) % 9) as u32;
        let t = tiles.get(&num).unwrap();
        assert_eq!((t.width, t.height), (8, 8));
        for b in 0..8 {
            for a in 0..8 {
                assert_eq!(px(t, a, b), [(col * 8 + a) as u8, (row * 8 + b) as u8, 7, 255]);
            }
        }
    }
}

#[test]
fn load_resizes_other_sizes_to_72x24() {
    let png = png_bytes(144, 48, |_, _| [1, 2, 3, 255]);
    let art = load_72x24(&png).unwrap();
    assert_eq!((art.width, art.height), (72, 24));
    assert_eq!(art.pixels.len(), 72 * 24 * 4);
    assert_eq!(px(&art, 71, 23), [1, 2, 3, 255]);
}

#[test]
fn load_rejects_what_is_not_an_image() {
    assert!(load_72x24(b"not an image").is_err());
    assert!(overlay_resized(b"not an image", 64, 64).is_err());
}

#[test]
fn digit_one_is_centred_on_the_torso() {
    let img = digit_overlay(1);
    assert_eq!((img.width, img.height), (64, 64));
    // one glyph, three wide: starts at x 22
    assert_eq!(px(&img, 23, 22), WHITE);
    assert_eq!(px(&img, 22, 22), CLEAR);
    assert_eq!(px(&img, 22, 23), WHITE);
    assert_eq!(px(&img, 23, 23), WHITE);
    assert_eq!(px(&img, 24, 23), CLEAR);
    for x in 22..25 {
        assert_eq!(px(&img, x, 28), WHITE);
    }
    assert_eq!(px(&img, 25, 28), CLEAR);
    assert_eq!(px(&img, 23, 29), CLEAR);
    assert_eq!(px(&img, 0, 0), CLEAR);
}

#[test]
fn two_digits_sit_four_columns_apart() {
    let img = digit_overlay(26);
    // '2' at x 20..23, '6' at x 24..27
    assert_eq!(px(&img, 20, 22), WHITE);
    assert_eq!(px(&img, 22, 22), WHITE);
    assert_eq!(px(&img, 23, 22), CLEAR);
    assert_eq!(px(&img, 24, 22), CLEAR);
    assert_eq!(px(&img, 25, 22), WHITE);
    assert_eq!(px(&img, 26, 22), WHITE);
    let lit: usize = img.pixels.chunks(4).filter(|p| p[3] == 255).count();
    // '2': 3+1+1+3+1+1 and '6': 2+1+3+2+2+2, each with its 3-wide underline
    assert_eq!(lit, (10 + 3) + (12 + 3));
}

#[test]
fn three_digits_start_left_of_the_torso() {
    let img = digit_overlay(100);
    // eleven wide: (8 - 11) / 2 rounds toward zero to -1, so x starts at 19
    assert_eq!(px(&img, 20, 22), WHITE);
    assert_eq!(px(&img, 19, 22), CLEAR);
    assert_eq!(px(&img, 19, 28), WHITE);
}

#[test]
fn minus_sign_draws_as_zero() {
    let img = digit_overlay(-5);
    // "-5": glyphs 0 and 5 from x 20
    assert_eq!(px(&img, 20, 23), WHITE);
    assert_eq!(px(&img, 21, 23), CLEAR);
    assert_eq!(px(&img, 22, 23), WHITE);
}

#[test]
fn generated_skin_layers() {
    let base = png_bytes(64, 64, |_, _| [200, 0, 0, 255]);
    let watermark = png_bytes(64, 64, |_, _| [0, 0, 0, 0]);
    let tile = RgbaImage::new_filled(8, 8, [0, 200, 0, 255]);
    let png = generate_skin(1, &tile, Some(&base), &base, &watermark, true).unwrap();
    let out = decode(&png);
    assert_eq!(out.dimensions(), (64, 64));
    assert_eq!(out.get_pixel(10, 10).0, [0, 200, 0, 255]);
    assert_eq!(out.get_pixel(40, 0).0[3], 0);
    assert_eq!(out.get_pixel(47, 15).0[3], 0);
    assert_eq!(out.get_pixel(8, 32).0[3], 0);
    assert_eq!(out.get_pixel(0, 0).0, [200, 0, 0, 255]);
    assert_eq!(out.get_pixel(23, 22).0, WHITE);
    assert_eq!(out.get_pixel(22, 22).0, [200, 0, 0, 255]);

    let plain = decode(&generate_skin(1, &tile, Some(&base), &base, &watermark, false).unwrap());
    assert_eq!(plain.get_pixel(23, 22).0, [200, 0, 0, 255]);
}

#[test]
fn generated_skin_uses_the_template_without_a_base() {
    let template = png_bytes(32, 32, |_, _| [0, 0, 200, 255]);
    let watermark = png_bytes(64, 64, |x, _| if x == 63 { [9, 9, 9, 255] } else { [0, 0, 0, 0] });
    let tile = RgbaImage::new_filled(8, 8, [0, 0, 0, 0]);
    let out = decode(&generate_skin(5, &tile, None, &template, &watermark, false).unwrap());
    assert_eq!(out.get_pixel(0, 0).0, [0, 0, 200, 255]);
    assert_eq!(out.get_pixel(10, 10).0, [0, 0, 200, 255]);
    assert_eq!(out.get_pixel(63, 5).0, [9, 9, 9, 255]);
}

#[test]
fn generated_skin_reports_a_broken_base() {
    let watermark = png_bytes(64, 64, |_, _| [0, 0, 0, 0]);
    let tile = RgbaImage::new_filled(8, 8, [0, 0, 0, 0]);
    assert!(generate_skin(1, &tile, Some(b"broken"), &watermark, &watermark, true).is_err());
    assert!(generate_skin(1, &tile, None, &watermark, b"broken", true).is_err());
}

#[test]
fn face_of_a_classic_skin_has_no_hat() {
    let skin = png_bytes(64, 32, |x, y| [x as u8, y as u8, 0, 255]);
    let face = decode(&skin_face_png(&skin).unwrap());
    assert_eq!(face.dimensions(), (8, 8));
    assert_eq!(face.get_pixel(0, 0).0, [8, 8, 0, 255]);
    assert_eq!(face.get_pixel(7, 7).0, [15, 15, 0, 255]);
}

#[test]
fn face_of_a_modern_skin_wears_its_hat() {
    let skin = png_bytes(64, 64, |x, y| {
        if (40..48).contains(&x) && (8..16).contains(&y) {
            if x == 40 { [1, 1, 1, 255] } else { [0, 0, 0, 0] }
        } else {
            [x as u8, y as u8, 5, 255]
        }
    });
    let face = decode(&skin_face_png(&skin).unwrap());
    assert_eq!(face.get_pixel(0, 3).0, [1, 1, 1, 255]);
    assert_eq!(face.get_pixel(1, 3).0, [9, 11, 5, 255]);
}

#[test]
fn face_needs_a_large_enough_skin() {
    let skin = png_bytes(32, 16, |_, _| [0, 0, 0, 255]);
    assert_eq!(skin_face_png(&skin).unwrap_err(), "skin image too small (32x16)");
}

#[test]
fn crop_clips_to_the_image() {
    let img = RgbaImage::new_filled(10, 10, [4, 4, 4, 4]);
    let c = img.crop(8, 8, 5, 5);
    assert_eq!((c.width, c.height), (2, 2));
    let c = img.crop(20, 0, 5, 5);
    assert_eq!((c.width, c.height), (0, 5));
}

#[test]
fn put_pixel_changes_one_pixel() {
    let mut img = RgbaImage::new_filled(3, 2, [0, 0, 0, 0]);
    img.put_pixel(2, 1, [1, 2, 3, 4]);
    assert_eq!(img.get_pixel(2, 1), [1, 2, 3, 4]);
    assert_eq!(img.get_pixel(1, 1), [0, 0, 0, 0]);
    assert_eq!(img.pixels.len(), 24);
}

#[test]
fn generation_names_and_defaults() {
    assert_eq!(skin_file_name(7), "skin_7.png");
    assert_eq!(output_dir_name(1700000000123), "skinartplus_1700000000123");
    assert_eq!(missing_tile_msg(3), "missing tile 3");
    let opts = GenerateAllOptions { input_path: "a.png".into(), base_skin_path: None, show_numbers: None };
    assert!(shows_numbers(&opts));
    let opts = GenerateAllOptions { input_path: "a.png".into(), base_skin_path: None, show_numbers: Some(false) };
    assert!(!shows_numbers(&opts));
}
