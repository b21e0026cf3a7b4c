use windowing::geom::{Pos, Size};
use windowing::image_data::{bgra_from_rgba, ImageData};
use windowing::monitors::{monitor_entries, MonitorInfo, PlatformMonitor};
use windowing::outlet::TextureFormat;

#[test]
fn image_data_new_keeps_fields() {
    let d = ImageData::new(2, 3, vec![0u8; 24], TextureFormat::Rgba8Unorm);
    assert_eq!(d.width, 2);
    assert_eq!(d.height, 3);
    assert_eq!(d.bytes.len(), 24);
    assert_eq!(d.format, TextureFormat::Rgba8Unorm);
}

#[test]
fn swizzle_swaps_red_and_blue_per_pixel() {
    let rgba = vec![1u8, 2, 3, 4, 10, 20, 30, 40];
    let bgra = bgra_from_rgba(&rgba);
    assert_eq!(bgra, vec![3u8, 2, 1, 4, 30, 20, 10, 40]);
}

#[test]
fn from_image_converts_pixels_to_bgra() {
    // A 2x1 image: one red pixel, one semi-transparent blue pixel.
    let raw = vec![255u8, 0, 0, 255, 0, 0, 255, 128];
    let buf = image::RgbaImage::from_raw(2, 1, raw).unwrap();
    let img = image::DynamicImage::ImageRgba8(buf);
    let d = ImageData::from_image(img);
    assert_eq!(d.width, 2);
    assert_eq!(d.height, 1);
    assert_eq!(d.format, TextureFormat::Bgra8Unorm);
    assert_eq!(d.bytes, vec![0u8, 0, 255, 255, 255, 0, 0, 128]);
}

#[test]
fn monitor_entries_duplicate_geometry_into_work_area() {
    let monitors = vec![
        MonitorInfo { pos: Pos::new(0, 0), size: Size::new(1920, 1080), scale_millis: 1000 },
        MonitorInfo { pos: Pos::new(1920, 0), size: Size::new(2560, 1440), scale_millis: 1500 },
    ];
    let entries = monitor_entries(&monitors);
    assert_eq!(entries.len(), 2);
    assert_eq!(
        entries[1],
        PlatformMonitor {
            main_pos: Pos::new(1920, 0),
            main_size: Size::new(2560, 1440),
            work_pos: Pos::new(1920, 0),
            work_size: Size::new(2560, 1440),
            scale_millis: 1500,
        }
    );
}

#[test]
fn monitor_entries_cap_at_limit() {
    let monitors = vec![
        MonitorInfo { pos: Pos::new(0, 0), size: Size::new(100, 100), scale_millis: 1000 };
        40
    ];
    assert_eq!(monitor_entries(&monitors).len(), 32);
}
