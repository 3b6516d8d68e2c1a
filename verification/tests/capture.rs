use bubble_simulation::capture::{
    bytes_per_row, png_of_copy, png_of_pixels, staging_size, unpadded, CaptureError,
};

#[test]
fn rows_start_on_a_boundary() {
    assert_eq!(bytes_per_row(0), 0);
    assert_eq!(bytes_per_row(1), 256);
    assert_eq!(bytes_per_row(64), 256);
    assert_eq!(bytes_per_row(65), 512);
    assert_eq!(bytes_per_row(1280), 5120);
    assert_eq!(staging_size(1280, 960), 5120 * 960);
    assert_eq!(staging_size(100, 3), 512 * 3);
}

/// An image whose bytes tell where they stand.
fn image(width: u32, height: u32) -> (Vec<u8>, Vec<u8>) {
    let row = bytes_per_row(width) as usize;
    let mut padded = vec![0xee; row * height as usize];
    let mut plain: Vec<u8> = Vec::new();
    for y in 0..height as usize {
        for x in 0..(width * 4) as usize {
            let byte = (7 * x + 13 * y) as u8;
            padded[y * row + x] = byte;
            plain.push(byte);
        }
    }
    (padded, plain)
}

#[test]
fn padding_is_dropped() {
    for (w, h) in [(1, 1), (10, 7), (64, 3), (65, 2), (5, 0)] {
        let (padded, plain) = image(w, h);
        assert_eq!(unpadded(&padded, w, h), plain);
    }
}

/// The file the crate makes when it writes to memory directly.
fn reference(width: u32, height: u32, pixels: &[u8]) -> Vec<u8> {
    let mut file: Vec<u8> = Vec::new();
    let mut enc = png::Encoder::new(&mut file, width, height);
    enc.set_color(png::ColorType::Rgba);
    enc.set_depth(png::BitDepth::Eight);
    enc.write_header().unwrap().write_image_data(pixels).unwrap();
    file
}

#[test]
fn an_image_becomes_a_png() {
    let (padded, plain) = image(33, 21);
    let file = png_of_copy(&padded, 33, 21).unwrap();
    assert_eq!(file, reference(33, 21, &plain));
    assert_eq!(file[..8], [137, 80, 78, 71, 13, 10, 26, 10]);
    let mut reader = png::Decoder::new(std::io::Cursor::new(file)).read_info().unwrap();
    assert_eq!((reader.info().width, reader.info().height), (33, 21));
    let mut decoded = vec![0; plain.len()];
    reader.next_frame(&mut decoded).unwrap();
    assert_eq!(decoded, plain);
}

#[test]
fn refused_images_are_named() {
    assert_eq!(png_of_pixels(0, 5, &vec![]), Err(CaptureError::Header));
    assert_eq!(png_of_pixels(5, 0, &vec![]), Err(CaptureError::Header));
    assert_eq!(png_of_pixels(2, 2, &vec![0; 15]), Err(CaptureError::Data));
    assert!(png_of_pixels(2, 2, &vec![0; 16]).is_ok());
    assert_eq!(png_of_copy(&vec![], 3, 0), Err(CaptureError::Header));
}
