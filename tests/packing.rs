use crunch_gd::packer::MAX_FAIL_COUNT;
use crunch_gd::{
    compose, next_sheet_size, trim_transparency, Image, ImageInfo, PackedSheet, Placement, Rect,
    Rgba, SpritePacker, SpritePackingError,
};

fn clear() -> Rgba {
    Rgba { r: 0, g: 0, b: 0, a: 0 }
}

fn solid(v: u8) -> Rgba {
    Rgba { r: v, g: v.wrapping_add(1), b: v.wrapping_add(2), a: 255 }
}

/// A `w` by `h` image whose pixels inside `opaque` are distinct solid colours.
fn image_with_box(w: usize, h: usize, opaque: Option<Rect>) -> Image {
    let mut pixels = Vec::new();
    for y in 0..h {
        for x in 0..w {
            let inside = match opaque {
                Some(r) => x >= r.x && x < r.x + r.w && y >= r.y && y < r.y + r.h,
                None => false,
            };
            pixels.push(if inside { solid((x * 7 + y * 13) as u8) } else { clear() });
        }
    }
    Image::from_pixels(w, h, pixels).unwrap()
}

fn opaque_image(w: usize, h: usize) -> Image {
    image_with_box(w, h, Some(Rect { x: 0, y: 0, w, h }))
}

fn overlaps(a: &Rect, b: &Rect) -> bool {
    a.x < b.x + b.w && b.x < a.x + a.w && a.y < b.y + b.h && b.y < a.y + a.h
}

fn assert_sound(sheet: &PackedSheet) {
    assert_eq!(sheet.placements.len(), sheet.sprites.len());
    for (m, p) in sheet.placements.iter().enumerate() {
        assert!(p.rect.x + p.rect.w <= sheet.width);
        assert!(p.rect.y + p.rect.h <= sheet.height);
        for (n, q) in sheet.placements.iter().enumerate() {
            if m != n {
                assert_ne!(p.index, q.index);
                assert!(!overlaps(&p.rect, &q.rect));
            }
        }
    }
}

fn assert_round_trip(sheet: &PackedSheet) {
    for p in &sheet.placements {
        let s = &sheet.sprites[p.index].0;
        for j in 0..s.height {
            for i in 0..s.width {
                assert_eq!(
                    sheet.canvas.get_pixel(p.rect.x + i, p.rect.y + j),
                    s.get_pixel(i, j)
                );
            }
        }
    }
}

#[test]
fn trim_fully_transparent_is_empty() {
    for (w, h) in [(1, 1), (3, 2), (8, 8)] {
        let img = image_with_box(w, h, None);
        assert!(matches!(trim_transparency(&img), Err(SpritePackingError::ImageEmpty)));
    }
}

#[test]
fn trim_zero_sized_image_is_empty() {
    let img = Image::from_pixels(0, 0, Vec::new()).unwrap();
    assert!(matches!(trim_transparency(&img), Err(SpritePackingError::ImageEmpty)));
}

#[test]
fn trim_single_pixel_gives_unit_box() {
    for (px, py) in [(0, 0), (4, 0), (0, 3), (4, 3), (2, 1)] {
        let img = image_with_box(5, 4, Some(Rect { x: px, y: py, w: 1, h: 1 }));
        let b = trim_transparency(&img).unwrap();
        assert_eq!(b, Rect { x: px, y: py, w: 1, h: 1 });
    }
}

#[test]
fn trim_one_by_one_image() {
    let img = opaque_image(1, 1);
    assert_eq!(trim_transparency(&img).unwrap(), Rect { x: 0, y: 0, w: 1, h: 1 });
}

#[test]
fn trim_finds_bounding_box() {
    let img = image_with_box(10, 8, Some(Rect { x: 2, y: 3, w: 5, h: 4 }));
    assert_eq!(trim_transparency(&img).unwrap(), Rect { x: 2, y: 3, w: 5, h: 4 });
    let full = opaque_image(6, 7);
    assert_eq!(trim_transparency(&full).unwrap(), Rect { x: 0, y: 0, w: 6, h: 7 });
}

#[test]
fn trim_box_of_two_far_pixels() {
    let mut pixels = vec![clear(); 6 * 5];
    pixels[1 * 6 + 4] = solid(9);
    pixels[3 * 6 + 1] = solid(3);
    let img = Image::from_pixels(6, 5, pixels).unwrap();
    assert_eq!(trim_transparency(&img).unwrap(), Rect { x: 1, y: 1, w: 4, h: 3 });
}

#[test]
fn from_pixels_checks_length() {
    assert!(Image::from_pixels(2, 2, vec![clear(); 3]).is_none());
    assert!(Image::from_pixels(2, 2, vec![clear(); 4]).is_some());
    assert!(Image::from_pixels(usize::MAX, 2, Vec::new()).is_none());
}

#[test]
fn crop_copies_region() {
    let img = image_with_box(6, 6, Some(Rect { x: 0, y: 0, w: 6, h: 6 }));
    let r = Rect { x: 1, y: 2, w: 3, h: 2 };
    let c = img.crop(r);
    assert_eq!((c.width, c.height), (3, 2));
    for j in 0..2 {
        for i in 0..3 {
            assert_eq!(c.get_pixel(i, j), img.get_pixel(1 + i, 2 + j));
        }
    }
}

#[test]
fn add_image_rejects_transparent_and_keeps_session() {
    let mut p = SpritePacker::new((16, 16), 1);
    p.add_image(opaque_image(2, 2), "a.png".to_string()).unwrap();
    let r = p.add_image(image_with_box(4, 4, None), "b.png".to_string());
    assert!(matches!(r, Err(SpritePackingError::ImageEmpty)));
    assert_eq!(p.images.len(), 1);
    assert_eq!(p.sizes, vec![(3, 3)]);
}

#[test]
fn add_image_trims_and_pads() {
    let mut p = SpritePacker::new((64, 64), 2);
    let img = image_with_box(10, 10, Some(Rect { x: 3, y: 4, w: 5, h: 2 }));
    p.add_image(img, "s.png".to_string()).unwrap();
    assert_eq!(p.sizes, vec![(7, 4)]);
    assert_eq!(p.images[0].1, "s.png");
    assert_eq!((p.images[0].0.width, p.images[0].0.height), (5, 2));
}

#[test]
fn add_image_padding_overflow_is_too_large() {
    let mut p = SpritePacker::new((16, 16), usize::MAX);
    let r = p.add_image(opaque_image(1, 1), "a.png".to_string());
    assert!(matches!(r, Err(SpritePackingError::InputSpriteTooLarge)));
    assert!(p.images.is_empty());
    assert!(p.sizes.is_empty());
}

#[test]
fn pack_fits_first_try_without_overlap() {
    let mut p = SpritePacker::new((64, 64), 2);
    for s in [10, 20, 5] {
        p.add_image(opaque_image(s, s), format!("{}.png", s)).unwrap();
    }
    let sheet = p.pack_sprites().unwrap();
    assert_eq!((sheet.width, sheet.height), (64, 64));
    assert_sound(&sheet);
    let mut sizes: Vec<(usize, usize)> =
        sheet.placements.iter().map(|q| (q.rect.w, q.rect.h)).collect();
    sizes.sort();
    assert_eq!(sizes, vec![(7, 7), (12, 12), (22, 22)]);
    assert_round_trip(&sheet);
}

#[test]
fn pack_grows_once() {
    let mut p = SpritePacker::new((4, 4), 0);
    p.add_image(opaque_image(6, 6), "big.png".to_string()).unwrap();
    let sheet = p.pack_sprites().unwrap();
    assert_eq!((sheet.width, sheet.height), (8, 8));
    assert_eq!(sheet.canvas.width, 8);
    assert_sound(&sheet);
    assert_round_trip(&sheet);
}

#[test]
fn pack_gives_up_after_three_doublings() {
    let mut p = SpritePacker::new((1, 1), 0);
    p.add_image(opaque_image(9, 9), "big.png".to_string()).unwrap();
    assert!(matches!(p.pack_sprites(), Err(SpritePackingError::InputSpriteTooLarge)));
}

#[test]
fn pack_reaches_eight_times_start() {
    let mut p = SpritePacker::new((1, 1), 0);
    p.add_image(opaque_image(8, 8), "edge.png".to_string()).unwrap();
    let sheet = p.pack_sprites().unwrap();
    assert_eq!((sheet.width, sheet.height), (8, 8));
}

#[test]
fn pack_empty_session() {
    let p = SpritePacker::new((4, 3), 0);
    let sheet = p.pack_sprites().unwrap();
    assert_eq!((sheet.width, sheet.height), (4, 3));
    assert!(sheet.placements.is_empty());
    assert_eq!(sheet.canvas.pixels, vec![clear(); 12]);
}

#[test]
fn pack_area_overflow_is_too_large() {
    let mut p = SpritePacker::new((usize::MAX, 2), 0);
    p.add_image(opaque_image(1, 1), "a.png".to_string()).unwrap();
    assert!(matches!(p.pack_sprites(), Err(SpritePackingError::InputSpriteTooLarge)));
}

#[test]
fn round_trip_and_transparent_background() {
    let mut p = SpritePacker::new((32, 32), 1);
    p.add_image(image_with_box(9, 9, Some(Rect { x: 1, y: 2, w: 4, h: 6 })), "a".to_string()).unwrap();
    p.add_image(image_with_box(5, 5, Some(Rect { x: 0, y: 0, w: 5, h: 3 })), "b".to_string()).unwrap();
    p.add_image(opaque_image(3, 7), "c".to_string()).unwrap();
    let sheet = p.pack_sprites().unwrap();
    assert_sound(&sheet);
    assert_round_trip(&sheet);
    for y in 0..sheet.height {
        for x in 0..sheet.width {
            let covered = sheet.placements.iter().any(|q| {
                let s = &sheet.sprites[q.index].0;
                x >= q.rect.x && x < q.rect.x + s.width && y >= q.rect.y && y < q.rect.y + s.height
            });
            if !covered {
                assert_eq!(sheet.canvas.get_pixel(x, y), clear());
            }
        }
    }
}

#[test]
fn padding_changes_only_spacing() {
    let build = |pad: usize| {
        let mut p = SpritePacker::new((64, 64), pad);
        p.add_image(image_with_box(8, 8, Some(Rect { x: 1, y: 1, w: 6, h: 5 })), "a".to_string()).unwrap();
        p.add_image(opaque_image(4, 9), "b".to_string()).unwrap();
        p.add_image(image_with_box(7, 3, Some(Rect { x: 2, y: 0, w: 3, h: 3 })), "c".to_string()).unwrap();
        p.pack_sprites().unwrap()
    };
    let tight = build(0);
    let spaced = build(4);
    for tight_p in &tight.placements {
        let spaced_p = spaced.placements.iter().find(|q| q.index == tight_p.index).unwrap();
        let s = &tight.sprites[tight_p.index].0;
        for j in 0..s.height {
            for i in 0..s.width {
                assert_eq!(
                    tight.canvas.get_pixel(tight_p.rect.x + i, tight_p.rect.y + j),
                    spaced.canvas.get_pixel(spaced_p.rect.x + i, spaced_p.rect.y + j)
                );
            }
        }
        assert_eq!(spaced_p.rect.w, s.width + 4);
        assert_eq!(spaced_p.rect.h, s.height + 4);
    }
    assert_sound(&spaced);
}

#[test]
fn next_sheet_size_doubles_until_budget() {
    assert_eq!(next_sheet_size((4, 5), 0).unwrap(), (8, 10));
    assert_eq!(next_sheet_size((4, 5), 2).unwrap(), (8, 10));
    assert!(matches!(
        next_sheet_size((4, 5), MAX_FAIL_COUNT),
        Err(SpritePackingError::InputSpriteTooLarge)
    ));
    assert!(matches!(
        next_sheet_size((usize::MAX / 2 + 1, 1), 0),
        Err(SpritePackingError::InputSpriteTooLarge)
    ));
}

#[test]
fn compose_draws_in_order_on_transparent_canvas() {
    let a = ImageInfo(opaque_image(2, 2), "a".to_string());
    let b = ImageInfo(image_with_box(1, 3, Some(Rect { x: 0, y: 0, w: 1, h: 3 })), "b".to_string());
    let sprites = vec![a, b];
    let placements = vec![
        Placement { rect: Rect { x: 1, y: 0, w: 2, h: 2 }, index: 0 },
        Placement { rect: Rect { x: 3, y: 1, w: 1, h: 3 }, index: 1 },
    ];
    let canvas = compose(4, 4, &sprites, &placements);
    assert_eq!(canvas.get_pixel(0, 0), clear());
    assert_eq!(canvas.get_pixel(1, 0), sprites[0].0.get_pixel(0, 0));
    assert_eq!(canvas.get_pixel(2, 1), sprites[0].0.get_pixel(1, 1));
    assert_eq!(canvas.get_pixel(3, 3), sprites[1].0.get_pixel(0, 2));
    assert_eq!(canvas.get_pixel(3, 0), clear());
    assert_eq!(canvas.get_pixel(0, 3), clear());
}
