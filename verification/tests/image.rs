use sandstone::image::{asset_name_of_file, decode_png};

fn encode_rgba(width: u32, height: u32, pixels: &[u8]) -> Vec<u8> {
    let mut out = Vec::new();
    {
        let mut encoder = png::Encoder::new(&mut out, width, height);
        encoder.set_color(png::ColorType::Rgba);
        encoder.set_depth(png::BitDepth::Eight);
        let mut writer = encoder.write_header().unwrap();
        writer.write_image_data(pixels).unwrap();
    }
    out
}

#[test]
fn png_bytes_decode_to_their_pixels() {
    let pixels = [255, 0, 0, 255, 0, 255, 0, 128];
    let bytes = encode_rgba(2, 1, &pixels);
    let image = decode_png(&bytes).unwrap();
    assert_eq!((image.width, image.height), (2, 1));
    assert_eq!(image.pixels, pixels.to_vec());
}

#[test]
fn bytes_that_are_no_png_decode_to_nothing() {
    assert!(decode_png(b"not a png file").is_none());
    assert!(decode_png(&[]).is_none());
}

#[test]
fn png_files_name_assets_by_their_stem() {
    assert_eq!(asset_name_of_file("ball.png"), Some("ball".to_string()));
    assert_eq!(asset_name_of_file("a.b.png"), Some("a.b".to_string()));
    assert_eq!(asset_name_of_file("ball.txt"), None);
    assert_eq!(asset_name_of_file(".png"), None);
    assert_eq!(asset_name_of_file("png"), None);
    assert_eq!(asset_name_of_file("ball.PNG"), None);
    assert_eq!(asset_name_of_file("ball.png.txt"), None);
}
