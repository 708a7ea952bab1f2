use std::io::Cursor;

use meshi::image_decode::load_disk_image;

fn png_bytes() -> Vec<u8> {
    let mut img = image::RgbaImage::new(2, 1);
    img.put_pixel(0, 0, image::Rgba([255, 0, 0, 255]));
    img.put_pixel(1, 0, image::Rgba([0, 0, 255, 128]));
    let mut bytes = Cursor::new(Vec::new());
    img.write_to(&mut bytes, image::ImageFormat::Png).unwrap();
    bytes.into_inner()
}

#[test]
fn disk_image_decodes_by_extension() {
    let bytes = png_bytes();
    let img = load_disk_image(&"imagery/test.png".to_string(), &bytes).unwrap();
    assert_eq!((img.width, img.height), (2, 1));
    assert_eq!(img.rgba, vec![255, 0, 0, 255, 0, 0, 255, 128]);
    assert_eq!(img.debug_name, "imagery/test.png");
    assert!(load_disk_image(&"imagery/TEST.PNG".to_string(), &bytes).is_ok());
}

#[test]
fn disk_image_needs_a_known_extension_and_good_bytes() {
    let bytes = png_bytes();
    assert!(load_disk_image(&"imagery/test".to_string(), &bytes).is_err());
    assert!(load_disk_image(&"imagery/test.".to_string(), &bytes).is_err());
    assert!(load_disk_image(&"imagery/test.txt".to_string(), &bytes).is_err());
    assert!(load_disk_image(&"imagery/test.png".to_string(), &[1, 2, 3]).is_err());
}
