use tinyrender::tgaimage::{Format, TGAColor, TGAImage};

fn sample_image() -> TGAImage {
    let mut image = TGAImage::new(3, 2, Format::RGB);
    let mut v: u8 = 1;
    for y in 0..2 {
        for x in 0..3 {
            image.set(x, y, &TGAColor::rgba(v, v + 1, v + 2, 255));
            v += 10;
        }
    }
    image
}

#[test]
fn test_tgaimage_set() {
    let w = 2;
    let h = 2;
    let c = &TGAColor::rgba(128, 1, 255, 255);

    let mut image = TGAImage::new(w, h, Format::RGB);
    image.set(1, 1, c);
    image.flip_vertically();

    // The pixel written at (1, 1) holds B, G, R = 255, 1, 128 and moves to
    // row 0 when the image is flipped.
    let expected: Vec<u8> = vec![0, 0, 0, 255, 1, 128, 0, 0, 0, 0, 0, 0];
    assert_eq!(image.data, expected);

    // Serializing and parsing the container reproduces the same buffer.
    let bytes = image.write_tga_file(true);
    let mut testimage = TGAImage::new(w, h, Format::RGB);
    testimage.read_tga_file(&bytes).unwrap();
    assert_eq!(image.data, testimage.data);
}

#[test]
fn test_color_layout() {
    let c = TGAColor::rgba(1, 2, 3, 4);
    assert_eq!(c.raw, [3, 2, 1, 4]);
    assert_eq!(c.bytespp, 4);
    let d = TGAColor::from_slice(&[9, 8, 7], 3);
    assert_eq!(d.raw, [9, 8, 7, 0]);
    assert_eq!(d.bytespp, 3);
    let n = TGAColor::new();
    assert_eq!(n.raw, [0, 0, 0, 0]);
    assert_eq!(n.bytespp, 1);
}

#[test]
fn test_get_set_bounds() {
    let mut image = TGAImage::new(2, 2, Format::RGB);
    assert!(image.get(-1, 0).is_none());
    assert!(image.get(0, -1).is_none());
    assert!(image.get(2, 0).is_none());
    assert!(image.get(0, 2).is_none());
    assert!(!image.set(2, 0, &TGAColor::rgba(1, 1, 1, 1)));
    assert!(!image.set(0, -1, &TGAColor::rgba(1, 1, 1, 1)));
    assert!(image.set(1, 0, &TGAColor::rgba(10, 20, 30, 40)));
    let c = image.get(1, 0).unwrap();
    assert_eq!(&c.raw[..3], &[30, 20, 10]);
    assert_eq!(c.raw[3], 0);
}

#[test]
fn test_flip_vertically_twice_is_identity() {
    let mut image = sample_image();
    let original = image.data.clone();
    assert!(image.flip_vertically());
    assert_ne!(image.data, original);
    assert!(image.flip_vertically());
    assert_eq!(image.data, original);
}

#[test]
fn test_flip_horizontally_twice_is_identity() {
    let mut image = sample_image();
    let original = image.data.clone();
    assert!(image.flip_horizontally());
    assert_ne!(image.data, original);
    assert!(image.flip_horizontally());
    assert_eq!(image.data, original);
}

#[test]
fn test_flip_empty_is_noop() {
    let mut image = TGAImage::new(0, 0, Format::RGB);
    assert!(!image.flip_vertically());
    assert!(!image.flip_horizontally());
}

#[test]
fn test_flip_vertically_moves_rows() {
    let mut image = sample_image();
    let top_left = image.get(0, 0).unwrap().raw;
    let bottom_left = image.get(0, 1).unwrap().raw;
    image.flip_vertically();
    assert_eq!(image.get(0, 0).unwrap().raw, bottom_left);
    assert_eq!(image.get(0, 1).unwrap().raw, top_left);
}

#[test]
fn test_clear_zeroes_buffer() {
    let mut image = sample_image();
    image.clear();
    assert!(image.data.iter().all(|&b| b == 0));
}

#[test]
fn test_scale_identity() {
    let mut image = sample_image();
    let original = image.data.clone();
    assert!(image.scale(3, 2));
    assert_eq!(image.data, original);
}

#[test]
fn test_scale_down_picks_nearest() {
    let mut image = sample_image();
    let c00 = image.get(0, 0).unwrap().raw;
    assert!(image.scale(1, 1));
    assert_eq!(image.width, 1);
    assert_eq!(image.height, 1);
    // Destination pixel (0, 0) samples source pixel (0*3/1... truncated) = (0, 0).
    assert_eq!(image.get(0, 0).unwrap().raw, c00);
}

#[test]
fn test_scale_up_duplicates_pixels() {
    let mut image = TGAImage::new(2, 1, Format::Grayscale);
    image.set(0, 0, &TGAColor::from_slice(&[7], 1));
    image.set(1, 0, &TGAColor::from_slice(&[9], 1));
    assert!(image.scale(4, 2));
    // Destination x of 0,1,2,3 samples source x floor(kx*2/4) = 0,0,1,1.
    assert_eq!(image.data, vec![7, 7, 9, 9, 7, 7, 9, 9]);
}

#[test]
fn test_scale_rejects_empty() {
    let mut image = sample_image();
    assert!(!image.scale(0, 5));
    assert!(!image.scale(5, 0));
    assert_eq!(image.width, 3);
}
