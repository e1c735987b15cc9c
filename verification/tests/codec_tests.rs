use tinyrender::codec::TgaError;
use tinyrender::tgaimage::{Format, TGAColor, TGAImage};

fn grayscale_image(pixels: &[u8]) -> TGAImage {
    let mut image = TGAImage::new(pixels.len() as i32, 1, Format::Grayscale);
    for (x, &p) in pixels.iter().enumerate() {
        image.set(x as i32, 0, &TGAColor::from_slice(&[p], 1));
    }
    image
}

fn rle_round_trip(image: &TGAImage) -> Vec<u8> {
    let encoded = image.unload_rle_data();
    let npix = (image.width * image.height) as usize;
    let (decoded, end) = TGAImage::load_rle_data(&encoded, 0, image.bytespp, npix).unwrap();
    assert_eq!(end, encoded.len());
    decoded
}

#[test]
fn test_rle_round_trip_single_runs() {
    let image = grayscale_image(&[5]);
    assert_eq!(rle_round_trip(&image), image.data);
    let image = grayscale_image(&[5, 5]);
    assert_eq!(rle_round_trip(&image), image.data);
    let image = grayscale_image(&[5, 6]);
    assert_eq!(rle_round_trip(&image), image.data);
}

#[test]
fn test_rle_round_trip_exactly_128() {
    let pixels: Vec<u8> = vec![42; 128];
    let image = grayscale_image(&pixels);
    let encoded = image.unload_rle_data();
    // One packeted run of exactly 128 pixels: header 255, then the pixel.
    assert_eq!(encoded, vec![255, 42]);
    assert_eq!(rle_round_trip(&image), image.data);

    let pixels: Vec<u8> = (0..128).map(|i| i as u8).collect();
    let image = grayscale_image(&pixels);
    assert_eq!(rle_round_trip(&image), image.data);
}

#[test]
fn test_rle_round_trip_longer_than_128() {
    let pixels: Vec<u8> = vec![9; 300];
    let image = grayscale_image(&pixels);
    assert_eq!(rle_round_trip(&image), image.data);
}

#[test]
fn test_rle_round_trip_mixed_runs() {
    let mut pixels: Vec<u8> = Vec::new();
    pixels.extend([1, 2, 3]);
    pixels.extend([7; 10]);
    pixels.extend([4, 5]);
    pixels.extend([8; 130]);
    pixels.push(6);
    let image = grayscale_image(&pixels);
    assert_eq!(rle_round_trip(&image), image.data);
}

#[test]
fn test_rle_round_trip_rgb() {
    let mut image = TGAImage::new(4, 2, Format::RGB);
    image.set(0, 0, &TGAColor::rgba(1, 2, 3, 0));
    image.set(1, 0, &TGAColor::rgba(1, 2, 3, 0));
    image.set(2, 0, &TGAColor::rgba(9, 9, 9, 0));
    image.set(3, 1, &TGAColor::rgba(4, 5, 6, 0));
    assert_eq!(rle_round_trip(&image), image.data);
}

#[test]
fn test_rle_raw_run_gives_up_pixel_before_packet() {
    // 1 2 2: the raw run holds only the first pixel, the equal pair forms a
    // packet: header 0, literal 1, then header 129, pixel 2.
    let image = grayscale_image(&[1, 2, 2]);
    let encoded = image.unload_rle_data();
    assert_eq!(encoded, vec![0, 1, 129, 2]);
}

#[test]
fn test_rle_decode_rejects_truncation() {
    assert_eq!(
        TGAImage::load_rle_data(&[3, 1], 0, 1, 4),
        Err(TgaError::Truncated)
    );
    assert_eq!(
        TGAImage::load_rle_data(&[], 0, 1, 1),
        Err(TgaError::Truncated)
    );
}

#[test]
fn test_rle_decode_rejects_overrun() {
    // A run of 4 pixels announced where only 2 are expected.
    assert_eq!(
        TGAImage::load_rle_data(&[131, 7], 0, 1, 2),
        Err(TgaError::Truncated)
    );
}

#[test]
fn test_header_and_footer_layout() {
    let image = grayscale_image(&[1, 2]);
    let out = image.write_tga_file(false);
    assert_eq!(
        &out[..18],
        &[0, 0, 3, 0, 0, 0, 0, 0, 0, 0, 0, 0, 2, 0, 1, 0, 8, 0x20]
    );
    assert_eq!(&out[18..20], &[1, 2]);
    let footer = &out[out.len() - 26..];
    assert_eq!(&footer[..8], &[0u8; 8]);
    assert_eq!(&footer[8..], &b"TRUEVISION-XFILE.\0"[..]);

    let mut rgb = TGAImage::new(1, 1, Format::RGB);
    rgb.set(0, 0, &TGAColor::rgba(1, 2, 3, 4));
    assert_eq!(rgb.write_tga_file(false)[2], 2);
    assert_eq!(rgb.write_tga_file(true)[2], 10);
    assert_eq!(image.write_tga_file(true)[2], 11);
}

#[test]
fn test_save_load_round_trip() {
    let mut image = TGAImage::new(3, 3, Format::RGB);
    for y in 0..3 {
        for x in 0..3 {
            let v = (10 * (x + 3 * y)) as u8;
            image.set(x, y, &TGAColor::rgba(v, v + 1, v + 2, 255));
        }
    }
    let raw_bytes = image.write_tga_file(false);
    let rle_bytes = image.write_tga_file(true);

    let mut from_raw = TGAImage::new(1, 1, Format::Grayscale);
    from_raw.read_tga_file(&raw_bytes).unwrap();
    let mut from_rle = TGAImage::new(1, 1, Format::Grayscale);
    from_rle.read_tga_file(&rle_bytes).unwrap();

    assert_eq!(from_raw.data, image.data);
    assert_eq!(from_raw.data, from_rle.data);
    assert_eq!(from_rle.width, 3);
    assert_eq!(from_rle.height, 3);
    assert_eq!(from_rle.bytespp, 3);
}

#[test]
fn test_read_rejects_bad_streams() {
    let mut image = grayscale_image(&[1, 2]);
    let prior = image.data.clone();

    // Too short for a header.
    assert_eq!(image.read_tga_file(&[0; 10]), Err(TgaError::Truncated));

    // Unknown image-type code.
    let mut bytes = grayscale_image(&[5]).write_tga_file(false);
    bytes[2] = 7;
    assert_eq!(image.read_tga_file(&bytes), Err(TgaError::InvalidData));

    // Zero width.
    let mut bytes = grayscale_image(&[5]).write_tga_file(false);
    bytes[12] = 0;
    bytes[13] = 0;
    assert_eq!(image.read_tga_file(&bytes), Err(TgaError::InvalidData));

    // Truncated pixel data.
    let bytes = grayscale_image(&[5, 6, 7]).write_tga_file(false);
    assert_eq!(image.read_tga_file(&bytes[..20]), Err(TgaError::Truncated));

    // A failed load leaves the image in its prior state.
    assert_eq!(image.data, prior);
    assert_eq!(image.width, 2);
}

#[test]
fn test_read_applies_descriptor_flips() {
    let image = grayscale_image(&[1, 2]);
    let mut bytes = image.write_tga_file(false);
    // Clearing the top-origin bit makes the reader flip vertically; with one
    // row that is the identity, so flip horizontally instead via bit 4.
    bytes[17] = 0x20 | 0x10;
    let mut back = TGAImage::new(1, 1, Format::Grayscale);
    back.read_tga_file(&bytes).unwrap();
    assert_eq!(back.data, vec![2, 1]);
}
