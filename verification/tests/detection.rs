//! Images, tags and the stream in which sightings are kept.

use icp_stitch::apriltags::{filter_glimpses, glimpse_passes, landmark_gates, Detection, GlimpseGates};
use icp_stitch::detect::{
    camera_info_streams, choose_pose, ensure_raw_tag_stream, family_kind, optical_frame,
    posed_images, read_raw_tag_stream, record_sightings, sighting_query, speed_query,
    speeds_to_store, tag_number, write_tag_stream, CameraModel, CameraMove, CameraSpeeds,
    PoseCandidate, PosedImage, RawTagStep, Sighting, StoredSighting, TagFamilyKind, TagScanner,
    TagValue, UNKNOWN_SPEED,
};
use icp_stitch::images::{
    decode_gray, decode_rgb, gray_readable, jpeg_samples, read_gray, read_rgb, rgb_from_jpeg,
    rgb_readable, tag_region, tag_sharpness, CameraImage, JpegHeader, Region,
};
use icp_stitch::jpeg::steady;
use icp_stitch::memory2::{append_statements, create_stream, pose_columns, tags_json};
use kornia_apriltag::family::TagFamily;
use kornia_apriltag::quad::Quad;
use rusqlite::types::Value;
use rusqlite::Connection;
use std::collections::HashSet;

fn bits(v: f64) -> u64 {
    v.to_bits()
}

fn number(b: u64) -> f64 {
    f64::from_bits(b)
}

fn image(encoding: &str, width: usize, height: usize, step: usize, data: Vec<u8>) -> CameraImage {
    CameraImage {
        encoding: encoding.to_string(),
        width,
        height,
        step,
        data,
    }
}

// ---- images ----

/// An 8x8 gray JPEG, 192 all over.
fn small_jpeg() -> Vec<u8> {
    let mut out: Vec<u8> = vec![0xff, 0xd8];
    // quantization: 8 for every coefficient
    out.extend([0xff, 0xdb, 0x00, 0x43, 0x00]);
    out.extend([8u8; 64]);
    // one component of 8 bits, 8x8
    out.extend([0xff, 0xc0, 0x00, 0x0b, 8, 0, 8, 0, 8, 1, 1, 0x11, 0]);
    // a single code each: DC of seven bits, and end of block
    for (class, symbol) in [(0x00u8, 7u8), (0x10, 0)] {
        out.extend([0xff, 0xc4, 0x00, 0x14, class, 1]);
        out.extend([0u8; 15]);
        out.push(symbol);
    }
    out.extend([0xff, 0xda, 0x00, 0x08, 1, 1, 0x00, 0, 63, 0]);
    // 0, 1000000 (64), 0, padding
    out.extend([0x40, 0x7f, 0xff, 0xd9]);
    out
}

#[test]
fn a_jpeg_is_decoded_to_its_samples() {
    let jpeg = image("jpeg", 0, 0, 0, small_jpeg());
    assert!(gray_readable(&jpeg));
    let samples = decode_gray(&jpeg).unwrap();
    assert_eq!((samples.width, samples.height), (8, 8));
    assert_eq!(samples.data.len(), 64 * samples.channels);
    assert!(samples.data.iter().all(|&v| v == 192));
    assert!(!samples.bgr);
    assert!(rgb_readable(&image("JPG", 0, 0, 0, small_jpeg())));
    let colors = decode_rgb(&image("JPG", 0, 0, 0, small_jpeg())).unwrap();
    assert_eq!((colors.width, colors.height), (8, 8));
    assert_eq!(colors.rgb, vec![192u8; 192]);
}

/// The codes of a small color JPEG: of two bits for no difference and a difference of seven bits,
/// and of one for the end of a block.
fn small_codes() -> Vec<u8> {
    let mut out: Vec<u8> = vec![0xff, 0xc4, 0x00, 0x15, 0x00, 1, 1];
    out.extend([0u8; 14]);
    out.extend([0, 7]);
    out.extend([0xff, 0xc4, 0x00, 0x14, 0x10, 1]);
    out.extend([0u8; 15]);
    out.push(0);
    out
}

/// Segments of a color JPEG up to its scan: 16 columns, with these sampling factors.
fn color_head(frame: u8, rows: u8, divisor: u8, factors: [u8; 3]) -> Vec<u8> {
    let mut out: Vec<u8> = vec![0xff, 0xd8];
    out.extend([0xff, 0xe0, 0x00, 0x10]);
    out.extend(*b"JFIF\0");
    out.extend([1, 1, 0, 0, 1, 0, 1, 0, 0]);
    out.extend([0xff, 0xfe, 0x00, 0x04, 0x68, 0x69]);
    out.extend([0xff, 0xdb, 0x00, 0x43, 0x00]);
    out.extend([divisor; 64]);
    out.extend([0xff, frame, 0x00, 0x11, 8, 0, rows, 0, 16, 3]);
    for (n, factor) in factors.iter().enumerate() {
        out.extend([n as u8 + 1, *factor, 0]);
    }
    out.extend(small_codes());
    out
}

/// A 16x16 JPEG with half as many colors each way, gray 192 all over.
fn color_jpeg() -> Vec<u8> {
    let mut out = color_head(0xc0, 16, 8, [0x22, 0x11, 0x11]);
    out.extend([0xff, 0xda, 0x00, 0x0c, 3, 1, 0x00, 2, 0x00, 3, 0x00, 0, 63, 0]);
    // 10 1000000 0, then 0 0 for each of the five other blocks, padding
    out.extend([0xa0, 0x00, 0x0f, 0xff, 0xd9]);
    out
}

#[test]
fn a_color_jpeg_is_decoded_to_its_samples() {
    assert!(steady(&color_jpeg()));
    let samples = read_gray(&image("jpeg", 0, 0, 0, color_jpeg())).unwrap().unwrap();
    assert_eq!((samples.width, samples.height, samples.channels), (16, 16, 3));
    assert_eq!(samples.data, vec![192u8; 768]);
    let colors = read_rgb(&image("jpeg", 0, 0, 0, color_jpeg())).unwrap().unwrap();
    assert_eq!((colors.width, colors.height), (16, 16));
    assert_eq!(colors.rgb, vec![192u8; 768]);
    // cut short, the rest of the image is made up
    let mut cut = color_jpeg();
    cut.truncate(cut.len() - 3);
    assert!(steady(&cut));
    let samples = decode_gray(&image("jpeg", 0, 0, 0, cut)).unwrap();
    assert_eq!(samples.data.len(), 768);
}

#[test]
fn a_jpeg_in_several_passes_is_decoded_to_its_samples() {
    let mut file = color_head(0xc2, 16, 8, [0x22, 0x11, 0x11]);
    // the means of all components, then the rest of the first one: nothing, four times
    file.extend([0xff, 0xda, 0x00, 0x0c, 3, 1, 0x00, 2, 0x00, 3, 0x00, 0, 0, 0]);
    // 10 1000000, then 0 for each of the five other blocks, padding
    file.extend([0xa0, 0x03]);
    file.extend([0xff, 0xda, 0x00, 0x08, 1, 1, 0x00, 1, 63, 0, 0x0f, 0xff, 0xd9]);
    assert!(steady(&file));
    let samples = read_gray(&image("jpeg", 0, 0, 0, file)).unwrap().unwrap();
    assert_eq!((samples.width, samples.height), (16, 16));
    assert_eq!(samples.data, vec![192u8; 768]);
}

#[test]
fn a_jpeg_with_a_scan_for_each_component_is_decoded_to_its_samples() {
    let mut file = color_head(0xc0, 8, 8, [0x11, 0x11, 0x11]);
    // 10 1000000 0 and 0 0 in the first scan, 0 0 twice in the others, padding
    file.extend([0xff, 0xda, 0x00, 0x08, 1, 1, 0x00, 0, 63, 0, 0xa0, 0x0f]);
    for n in 2..4u8 {
        file.extend([0xff, 0xda, 0x00, 0x08, 1, n, 0x00, 0, 63, 0, 0x0f]);
    }
    file.extend([0xff, 0xd9]);
    assert!(steady(&file));
    let samples = read_gray(&image("jpeg", 0, 0, 0, file)).unwrap().unwrap();
    assert_eq!((samples.width, samples.height), (16, 8));
    assert_eq!(samples.data, vec![192u8; 384]);
}

#[test]
fn a_jpeg_with_a_quarter_of_the_colors_is_decoded_to_its_samples() {
    let mut file = color_head(0xc0, 8, 8, [0x41, 0x11, 0x11]);
    file.extend([0xff, 0xda, 0x00, 0x0c, 3, 1, 0x00, 2, 0x00, 3, 0x00, 0, 63, 0]);
    file.extend([0xa0, 0x00, 0x0f, 0xff, 0xd9]);
    assert!(steady(&file));
    let samples = read_gray(&image("jpeg", 0, 0, 0, file)).unwrap().unwrap();
    assert_eq!((samples.width, samples.height), (16, 8));
    assert_eq!(samples.data, vec![192u8; 384]);
}

#[test]
fn layouts_that_are_not_steady_are_told_apart() {
    // each component in a scan of its own, the second sampled more often than the first
    let mut apart = color_head(0xc0, 8, 8, [0x11, 0x21, 0x11]);
    for n in 1..4u8 {
        apart.extend([0xff, 0xda, 0x00, 0x08, 1, n, 0x00, 0, 63, 0, 0x00, 0x7f]);
    }
    apart.extend([0xff, 0xd9]);
    let apart = image("jpeg", 0, 0, 0, apart);
    assert!(!steady(&apart.data));
    assert!(!gray_readable(&apart));
    assert!(!rgb_readable(&apart));
    assert!(read_gray(&apart).is_none());
    assert!(read_rgb(&apart).is_none());

    let scan = [0xff, 0xda, 0x00, 0x0c, 3, 1, 0x00, 2, 0x00, 3, 0x00, 0, 63, 0];
    let file = |head: Vec<u8>, codes: &[u8]| -> Vec<u8> {
        let mut out = head;
        out.extend(scan);
        out.extend(codes);
        out
    };
    let codes = [0xa0u8, 0x00, 0x0f, 0xff, 0xd9];
    for factors in [[0x11, 0x11, 0x11], [0x21, 0x11, 0x11], [0x12, 0x11, 0x11]] {
        assert!(steady(&file(color_head(0xc0, 16, 8, factors), &codes)));
    }
    // a first component that leads the others by any factor, and a later one sampled more often
    for factors in [[0x41, 0x11, 0x11], [0x44, 0x22, 0x11], [0x22, 0x21, 0x12]] {
        assert!(steady(&file(color_head(0xc0, 16, 8, factors), &codes)));
    }
    assert!(!steady(&file(color_head(0xc0, 16, 8, [0x11, 0x21, 0x11]), &codes)));
    assert!(!steady(&file(color_head(0xc0, 16, 8, [0x21, 0x12, 0x11]), &codes)));
    // in several passes, and in a way that is not decoded at all
    assert!(steady(&file(color_head(0xc2, 16, 8, [0x22, 0x11, 0x11]), &codes)));
    assert!(!steady(&file(color_head(0xc2, 16, 8, [0x11, 0x21, 0x11]), &codes)));
    assert!(!steady(&file(color_head(0xc9, 16, 8, [0x22, 0x11, 0x11]), &codes)));
    // restarts, stuffed bytes and further segments may stand among the codes
    let head = || color_head(0xc0, 16, 8, [0x22, 0x11, 0x11]);
    assert!(steady(&file(head(), &[0xff, 0x00, 0xff, 0xd0, 0xff, 0xff, 0xd9, 0xff, 0xc4])));
    assert!(steady(&file(head(), &[0x00, 0xff, 0xc4, 0x00])));
    // four components, and two, in a single pass only
    for (count, frame) in [(4u8, 0xc0u8), (2, 0xc0), (4, 0xc2), (2, 0xc2)] {
        let mut other: Vec<u8> = vec![0xff, 0xd8, 0xff, 0xdb, 0x00, 0x43, 0x00];
        other.extend([8u8; 64]);
        other.extend([0xff, frame, 0x00, 8 + 3 * count, 8, 0, 8, 0, 8, count]);
        for n in 0..count {
            other.extend([n + 1, 0x11, 0]);
        }
        other.extend(small_codes());
        assert_eq!(steady(&file(other, &codes)), frame == 0xc0);
    }
    // a divisor that overflows over the blocks of all scans
    let mut wide = color_head(0xc0, 16, 255, [0x22, 0x11, 0x11]);
    let symbol = wide.len() - 23;
    assert_eq!(wide[symbol], 7);
    wide[symbol] = 15;
    assert!(steady(&file(wide.clone(), &codes)));
    let mut scans: Vec<u8> = Vec::new();
    for _ in 0..63 {
        scans.extend(scan);
        scans.extend([0x00, 0x0f]);
    }
    assert!(steady(&file(wide.clone(), &scans)));
    scans.extend(scan);
    assert!(!steady(&file(wide, &scans)));
    let mut large = color_head(0xc0, 16, 255, [0x22, 0x11, 0x11]);
    assert!(steady(&file(large.clone(), &codes)));
    let rows = large.iter().position(|&b| b == 0xc0).unwrap() + 4;
    large[rows] = 0xff;
    large[rows + 2] = 0xff;
    assert!(!steady(&file(large, &codes)));
    assert!(!steady(&[]));
    assert!(!steady(&[0xff, 0xd8]));
}

#[test]
fn bytes_that_are_no_jpeg_are_refused() {
    let broken = image("jpeg", 0, 0, 0, vec![1, 2, 3, 4]);
    assert!(!steady(&broken.data));
    assert!(gray_readable(&broken) && rgb_readable(&broken));
    assert!(read_gray(&broken).unwrap().is_err());
    assert!(read_rgb(&broken).unwrap().is_err());
    let gray = decode_gray(&broken).err().unwrap();
    let rgb = decode_rgb(&broken).err().unwrap();
    assert_eq!(rgb, format!("jpeg header decode failed: {gray}"));
    let mut cut = small_jpeg();
    cut.truncate(20);
    assert!(decode_gray(&image("jpeg", 0, 0, 0, cut)).is_err());
}

#[test]
fn decoded_samples_become_colors() {
    assert_eq!(rgb_from_jpeg(3, vec![1, 2, 3]).unwrap(), vec![1, 2, 3]);
    assert_eq!(rgb_from_jpeg(1, vec![1, 2]).unwrap(), vec![1, 1, 1, 2, 2, 2]);
    assert_eq!(
        rgb_from_jpeg(4, vec![1, 2, 3, 4]).unwrap_err(),
        "jpeg with 4 components unsupported"
    );
    let header = JpegHeader {
        width: 1,
        height: 1,
        components: 3,
    };
    let samples = jpeg_samples(vec![9, 8, 7], header);
    assert_eq!(samples.channels, 3);
    assert_eq!(samples.data, vec![9, 8, 7]);
}

#[test]
fn rows_are_packed_without_their_padding() {
    let gray = decode_gray(&image("mono8", 2, 2, 3, vec![1, 2, 0, 3, 4, 0])).unwrap();
    assert_eq!(gray.data, vec![1, 2, 3, 4]);
    assert_eq!(gray.channels, 1);
    let bgr = decode_gray(&image("bgr8", 1, 1, 3, vec![1, 2, 3])).unwrap();
    assert!(bgr.bgr);
    assert_eq!(bgr.channels, 3);
    let colors = decode_rgb(&image("BGRA8", 1, 2, 0, vec![1, 2, 3, 0, 4, 5, 6, 0])).unwrap();
    assert_eq!(colors.rgb, vec![3, 2, 1, 6, 5, 4]);
    let plain = decode_rgb(&image("rgb8", 1, 2, 4, vec![1, 2, 3, 0, 4, 5, 6])).unwrap();
    assert_eq!(plain.rgb, vec![1, 2, 3, 4, 5, 6]);
    let mono = decode_rgb(&image("8UC1", 2, 1, 0, vec![5, 6])).unwrap();
    assert_eq!(mono.rgb, vec![5, 5, 5, 6, 6, 6]);
}

#[test]
fn images_that_cannot_be_read_say_why() {
    let unknown = image("yuv", 1, 1, 1, vec![0]);
    assert_eq!(
        decode_gray(&unknown).err().unwrap(),
        "unsupported image encoding \"yuv\""
    );
    assert_eq!(
        decode_rgb(&unknown).err().unwrap(),
        "unsupported image encoding \"yuv\""
    );
    let short = image("rgb8", 2, 2, 6, vec![0; 11]);
    assert_eq!(
        decode_gray(&short).err().unwrap(),
        "image buffer too small: 11 bytes for 2x2 rgb8"
    );
    assert!(!rgb_readable(&short));
    assert!(rgb_readable(&image("rgb8", 2, 2, 6, vec![0; 12])));
    assert!(!gray_readable(&image("rgb8", usize::MAX, 1, 1, vec![])));
    assert!(!gray_readable(&image("mono8", 1, usize::MAX, 2, vec![])));
    assert!(rgb_readable(&image("rgb8", 0, 5, 0, vec![])));
}

#[test]
fn sharpness_comes_from_the_laplacian() {
    // one bright pixel in the middle of a 3x3 image
    let mut gray = vec![0u8; 9];
    gray[4] = 10;
    let region = tag_region(3, 3, (-2, 0), (99, 3)).unwrap();
    assert_eq!((region.left, region.top, region.width, region.height), (0, 0, 3, 3));
    // -40 in the middle, 20 at each of the four neighbours that see the pixel twice by mirroring
    let (sum, squares) = tag_sharpness(&gray, 3, 3, &region);
    assert_eq!(sum, 4 * 20 - 40);
    assert_eq!(squares, 4 * 400 + 1600);
    assert!(tag_region(3, 3, (2, 0), (3, 3)).is_none());
    assert!(tag_region(3, 3, (5, 5), (9, 9)).is_none());
    let flat = vec![7u8; 9];
    let all = Region { left: 0, top: 0, width: 3, height: 3 };
    assert_eq!(tag_sharpness(&flat, 3, 3, &all), (0, 0));
}

// ---- tags ----

#[test]
fn dictionaries_name_families() {
    assert_eq!(family_kind("DICT_APRILTAG_36h11").unwrap(), TagFamilyKind::Tag36H11);
    assert_eq!(family_kind("DICT_APRILTAG_36h10").unwrap(), TagFamilyKind::Tag36H10);
    assert_eq!(family_kind("DICT_APRILTAG_25h9").unwrap(), TagFamilyKind::Tag25H9);
    assert_eq!(family_kind("DICT_APRILTAG_16h5").unwrap(), TagFamilyKind::Tag16H5);
    assert_eq!(
        family_kind("DICT_4X4").unwrap_err(),
        "unsupported aruco dictionary \"DICT_4X4\""
    );
}

type Mat3 = [[f64; 3]; 3];

/// The rotation about an axis by an angle in radians, the length of the axis.
fn rotation_by(omega: [f64; 3]) -> Mat3 {
    let angle = omega.iter().map(|v| v * v).sum::<f64>().sqrt();
    let [x, y, z] = omega.map(|v| v / angle);
    let (s, c) = angle.sin_cos();
    let t = 1.0 - c;
    [
        [t * x * x + c, t * x * y - s * z, t * x * z + s * y],
        [t * x * y + s * z, t * y * y + c, t * y * z - s * x],
        [t * x * z - s * y, t * y * z + s * x, t * z * z + c],
    ]
}

fn product(a: &Mat3, b: &Mat3) -> Mat3 {
    let mut out = [[0.0; 3]; 3];
    for (i, row) in out.iter_mut().enumerate() {
        for (j, value) in row.iter_mut().enumerate() {
            *value = (0..3).map(|k| a[i][k] * b[k][j]).sum();
        }
    }
    out
}

/// Shade of the bitmap of a tag at tag coordinates; none outside of the tag.
fn tag_intensity(family: &TagFamily, id: usize, tag_x: f64, tag_y: f64) -> Option<u8> {
    let margin = family.total_width as f64 / family.width_at_border as f64;
    if tag_x.abs() > margin || tag_y.abs() > margin {
        return None;
    }
    if tag_x.abs() > 1.0 || tag_y.abs() > 1.0 {
        return Some(255);
    }
    let cells = family.width_at_border as f64;
    let last = family.width_at_border as i64 - 1;
    let cell_x = (((tag_x / 2.0 + 0.5) * cells).floor() as i64).clamp(0, last) as i8;
    let cell_y = (((tag_y / 2.0 + 0.5) * cells).floor() as i64).clamp(0, last) as i8;
    let border = last as i8;
    if cell_x == 0 || cell_y == 0 || cell_x == border || cell_y == border {
        return Some(0);
    }
    let code = family.code_data[id];
    for bit in 0..family.nbits {
        if family.bit_x[bit] == cell_x && family.bit_y[bit] == cell_y {
            let set = (code >> (family.nbits - 1 - bit)) & 1 == 1;
            return Some(if set { 255 } else { 0 });
        }
    }
    Some(0)
}

/// The tag at a pose in front of a pinhole camera with a focal length of 600 pixels.
fn render_tag(family: &TagFamily, rotation: &Mat3, translation: [f64; 3], half: f64) -> Vec<u8> {
    let (width, height) = (640usize, 480usize);
    let normal = [rotation[0][2], rotation[1][2], rotation[2][2]];
    let offset: f64 = (0..3).map(|k| translation[k] * normal[k]).sum();
    let mut pixels = vec![0u8; width * height];
    let offsets = [-1.0 / 3.0, 0.0, 1.0 / 3.0];
    for pixel_y in 0..height {
        for pixel_x in 0..width {
            let mut total = 0.0;
            for dy in offsets {
                for dx in offsets {
                    let ray = [
                        (pixel_x as f64 + dx - 320.0) / 600.0,
                        (pixel_y as f64 + dy - 240.0) / 600.0,
                        1.0,
                    ];
                    let along: f64 = (0..3).map(|k| ray[k] * normal[k]).sum();
                    let mut value = 128.0;
                    let depth = offset / along;
                    if along.abs() > 1e-9 && depth > 0.0 {
                        let hit: Vec<f64> = (0..3).map(|k| ray[k] * depth - translation[k]).collect();
                        let x: f64 = (0..3).map(|k| rotation[k][0] * hit[k]).sum();
                        let y: f64 = (0..3).map(|k| rotation[k][1] * hit[k]).sum();
                        if let Some(shade) = tag_intensity(family, 0, x / half, -y / half) {
                            value = shade as f64;
                        }
                    }
                    total += value;
                }
            }
            pixels[pixel_y * width + pixel_x] = (total / 9.0).round() as u8;
        }
    }
    pixels
}

#[test]
fn synthetic_tag_detection_recovers_pose() {
    let family = TagFamily::tag36_h11();
    let half = 0.05;
    let facing = rotation_by([std::f64::consts::PI, 0.0, 0.0]);
    let rotation = product(&rotation_by([0.15, -0.1, 0.05]), &facing);
    let translation = [0.03, -0.02, 0.5];
    let (width, height) = (640usize, 480usize);
    let gray = render_tag(&family, &rotation, translation, half);
    let mut scanner = TagScanner::new(family_kind("DICT_APRILTAG_36h11").unwrap());
    assert!(scanner.wants_decoder(width, height));
    let found = scanner.scan(&gray, width, height).unwrap();
    assert!(!scanner.wants_decoder(width, height));
    assert_eq!(found.len(), 1, "expected exactly one detection");
    assert_eq!(found[0].id, 0);
    // the same scanner again, with the decoder that it has
    assert_eq!(scanner.scan(&gray, width, height).unwrap().len(), 1);
    // corners of the tag: top left, top right, bottom right, bottom left
    let quad = Quad {
        homography: found[0].homography.map(f32::from_bits),
        ..Default::default()
    };
    let corners: Vec<[f64; 2]> = [[-1.0f32, -1.0], [1.0, -1.0], [1.0, 1.0], [-1.0, 1.0]]
        .iter()
        .map(|c| {
            let p = quad.homography_project(c[0], c[1]);
            [p.x as f64, p.y as f64]
        })
        .collect();
    let expected: Vec<[f64; 2]> = [[-half, half], [half, half], [half, -half], [-half, -half]]
        .iter()
        .map(|c| {
            let point: Vec<f64> = (0..3)
                .map(|k| rotation[k][0] * c[0] + rotation[k][1] * c[1] + translation[k])
                .collect();
            [
                600.0 * point[0] / point[2] + 320.0,
                600.0 * point[1] / point[2] + 240.0,
            ]
        })
        .collect();
    for (corner, wanted) in corners.iter().zip(&expected) {
        let off = (corner[0] - wanted[0]).hypot(corner[1] - wanted[1]);
        assert!(off < 2.0, "{corners:?} vs {expected:?}");
    }
    let low = |axis: usize| corners.iter().map(|c| c[axis]).fold(f64::INFINITY, f64::min).floor() as i64;
    let high = |axis: usize| corners.iter().map(|c| c[axis]).fold(f64::NEG_INFINITY, f64::max).ceil() as i64;
    let region = tag_region(width, height, (low(0), low(1)), (high(0), high(1))).unwrap();
    let (sum, squares) = tag_sharpness(&gray, width, height, &region);
    let count = (region.width * region.height) as f64;
    let mean = sum as f64 / count;
    assert!(squares as f64 / count - mean * mean > 60.0);
}

#[test]
fn images_that_are_too_small_hold_no_tags() {
    let mut scanner = TagScanner::new(TagFamilyKind::Tag16H5);
    assert!(scanner.scan(&[0u8; 16], 4, 4).is_err());
    assert!(scanner.scan(&vec![0u8; 1024], 32, 32).unwrap().is_empty());
    assert!(scanner.wants_decoder(4, 4));
    // eight rows and eight columns are enough
    assert!(scanner.scan(&[0u8; 64], 8, 8).unwrap().is_empty());
    assert!(scanner.scan(&[0u8; 56], 8, 7).is_err());
    assert!(scanner.scan(&[0u8; 56], 7, 8).is_err());
    assert!(scanner.scan(&[], 2, 0).is_err());
    // a scanner that has refused an image takes the next one
    assert!(scanner.scan(&[0u8; 64], 8, 8).unwrap().is_empty());
}

#[test]
fn cameras_without_all_coefficients_are_padded() {
    let k = [600.0, 0.5, 320.0, 0.0, 601.0, 240.0, 0.0, 0.0, 1.0].map(bits);
    let camera = CameraModel::from_info(&k, &[bits(-0.28), bits(0.07)]);
    assert_eq!(camera.fx, bits(600.0));
    assert_eq!(camera.skew, bits(0.5));
    assert_eq!(camera.cx, bits(320.0));
    assert_eq!(camera.fy, bits(601.0));
    assert_eq!(camera.cy, bits(240.0));
    assert_eq!(camera.dist[0], bits(-0.28));
    assert_eq!(camera.dist[1], bits(0.07));
    assert_eq!(&camera.dist[2..], &[0u64; 6]);
    let long: Vec<u64> = (0..12).map(|i| bits(i as f64)).collect();
    assert_eq!(CameraModel::from_info(&k, &long).dist[7], bits(7.0));
}

#[test]
fn intrinsics_are_looked_for_by_camera_first() {
    assert_eq!(
        camera_info_streams("color_image", ""),
        vec!["color_image_camera_info".to_string(), "camera_info".to_string()]
    );
    assert_eq!(camera_info_streams("color_image", "mine"), vec!["mine".to_string()]);
    assert_eq!(optical_frame(""), "camera_optical");
    assert_eq!(optical_frame("lens"), "lens");
}

fn candidate(depth: f64, rms: f64) -> PoseCandidate {
    PoseCandidate {
        depth: bits(depth),
        rms: bits(rms),
    }
}

#[test]
fn the_closest_pose_in_front_is_taken() {
    assert_eq!(choose_pose(&[]), None);
    assert_eq!(choose_pose(&[candidate(-1.0, 0.1)]), None);
    assert_eq!(choose_pose(&[candidate(0.0, 0.1), candidate(1.0, 5.0)]), Some(1));
    assert_eq!(choose_pose(&[candidate(1.0, 2.0), candidate(1.0, 1.0)]), Some(1));
    assert_eq!(choose_pose(&[candidate(1.0, 1.0), candidate(1.0, 1.0)]), Some(0));
}

// ---- speeds ----

#[test]
fn speeds_belong_to_the_later_image_of_a_pair() {
    let posed_image = |ts: f64, x: Option<f64>| PosedImage {
        ts: bits(ts),
        pose: [x.map(bits), Some(0), Some(0), Some(0), Some(0), Some(0), Some(bits(1.0))],
    };
    let images = [
        posed_image(2.0, Some(2.0)),
        posed_image(1.5, None),
        posed_image(1.0, Some(1.0)),
    ];
    let posed = posed_images(&images);
    assert_eq!(posed.len(), 2);
    assert_eq!((posed[0].0, posed[0].1[0]), (bits(1.0), bits(1.0)));
    assert_eq!((posed[1].0, posed[1].1[0]), (bits(2.0), bits(2.0)));
    let step = CameraMove {
        dt: bits(1.0),
        linear: bits(3.0),
        angular: bits(4.0),
    };
    let speeds = CameraSpeeds::new(&posed, &[step]);
    assert!(speeds.is_available());
    assert_eq!(speeds.at(bits(2.0)), (bits(3.0), bits(4.0)));
    assert_eq!(speeds.at(bits(1.0)), (UNKNOWN_SPEED, UNKNOWN_SPEED));
    // no time between the images, nothing to tell
    let still = CameraMove { dt: bits(0.0), ..step };
    assert_eq!(CameraSpeeds::new(&posed, &[still]).at(bits(2.0)), (bits(-1.0), bits(-1.0)));
    assert!(!CameraSpeeds::new(&posed[..1], &[]).is_available());
    assert_eq!(
        speed_query("img").unwrap(),
        "SELECT ts, pose_x, pose_y, pose_z, pose_qx, pose_qy, pose_qz, pose_qw FROM \"img\" ORDER BY ts"
    );
    assert!(speed_query("i\"mg").is_err());
    let seen = Sighting {
        id: 5,
        t_cam_marker: [0; 7],
        sharpness: bits(1.0),
        reproj_px: bits(2.0),
        tag_px: bits(3.0),
        distance_m: bits(4.0),
        view_angle_deg: bits(5.0),
    };
    let mut out: Vec<Detection> = Vec::new();
    record_sightings(&mut out, bits(2.0), &[None, Some(seen)], &speeds);
    assert_eq!(out.len(), 1);
    let d = out[0];
    assert_eq!((d.marker_id, d.lin_speed, d.ang_speed), (5, bits(3.0), bits(4.0)));
    assert_eq!((d.ts, d.sharpness, d.view_angle_deg), (bits(2.0), bits(1.0), bits(5.0)));
}

// ---- the stream ----

fn detections() -> Vec<Detection> {
    vec![
        Detection {
            ts: bits(10.5),
            marker_id: 3,
            t_cam_marker: [0.1, -0.2, 0.7, 0.0, 0.0, 0.0, 1.0].map(bits),
            sharpness: bits(120.0),
            reproj_px: bits(0.4),
            tag_px: bits(55.0),
            distance_m: bits(0.0),
            view_angle_deg: bits(0.0),
            lin_speed: bits(0.2),
            ang_speed: bits(12.0),
        },
        Detection {
            ts: bits(11.0),
            marker_id: 7,
            t_cam_marker: [0.0, 0.0, 0.5, 0.0, 0.0, 0.0, 1.0].map(bits),
            sharpness: bits(90.0),
            reproj_px: bits(1.1),
            tag_px: bits(30.0),
            distance_m: bits(0.0),
            view_angle_deg: bits(0.0),
            lin_speed: bits(-1.0),
            ang_speed: bits(-1.0),
        },
    ]
}

fn diagnostics_of(d: &Detection) -> Vec<String> {
    let (lin, ang) = speeds_to_store(d.lin_speed, d.ang_speed);
    [d.sharpness, d.reproj_px, d.tag_px, d.distance_m, d.view_angle_deg, lin, ang]
        .iter()
        .map(|v| format!("{:?}", number(*v)))
        .collect()
}

fn value_of(value: Value) -> TagValue {
    match value {
        Value::Null => TagValue::Null,
        Value::Integer(n) => TagValue::Number(bits(n as f64)),
        Value::Real(n) => TagValue::Number(bits(n)),
        Value::Text(text) => {
            let parsed = text.parse::<f64>().ok().map(bits);
            TagValue::Text(text, parsed)
        }
        Value::Blob(_) => TagValue::Blob,
    }
}

#[test]
fn tag_stream_write_read_roundtrip() {
    let connection = Connection::open_in_memory().unwrap();
    connection
        .execute_batch(&create_stream("raw_april_tags").unwrap())
        .unwrap();
    let written = detections();
    let diagnostics: Vec<Option<Vec<String>>> =
        written.iter().map(|d| Some(diagnostics_of(d))).collect();
    let rows = write_tag_stream(&written, &diagnostics);
    let sql = append_statements("raw_april_tags").unwrap();
    for row in &rows {
        let c = pose_columns(Some(row.pose)).map(|v| v.map(number));
        connection
            .execute(
                &sql.meta,
                (
                    number(row.ts), None::<f64>, c[0], c[1], c[2], c[3], c[4], c[5], c[6],
                    tags_json(&row.tags),
                ),
            )
            .unwrap();
        let id = connection.last_insert_rowid();
        let payload: Vec<u8> = row.pose.iter().flat_map(|v| v.to_be_bytes()).collect();
        connection.execute(&sql.blob, (id, payload)).unwrap();
    }
    let marker_type: String = connection
        .query_row(
            "SELECT type FROM (SELECT json_extract(tags, '$.marker_id') AS v, \
             json_type(tags, '$.marker_id') AS type FROM raw_april_tags LIMIT 1)",
            [],
            |row| row.get(0),
        )
        .unwrap();
    assert_eq!(marker_type, "integer");
    let mut statement = connection
        .prepare(&sighting_query("raw_april_tags").unwrap())
        .unwrap();
    let stored: Vec<StoredSighting> = statement
        .query_map([], |row| {
            let payload: Vec<u8> = row.get(1)?;
            let mut pose = [0u64; 7];
            for (slot, chunk) in pose.iter_mut().zip(payload.chunks(8)) {
                *slot = u64::from_be_bytes(chunk.try_into().unwrap());
            }
            let mut values = Vec::new();
            for column in 2..8 {
                values.push(value_of(row.get(column)?));
            }
            Ok(StoredSighting {
                ts: bits(row.get(0)?),
                pose,
                view: (bits(0.0), bits(0.0)),
                values,
            })
        })
        .unwrap()
        .map(|row| row.unwrap())
        .collect();
    let back = read_raw_tag_stream("raw_april_tags", &stored).unwrap();
    assert_eq!(back.len(), 2);
    assert_eq!(back[0].marker_id, 3);
    assert!((number(back[0].sharpness) - 120.0).abs() < 1e-12);
    assert!((number(back[0].lin_speed) - 0.2).abs() < 1e-12);
    assert!((number(back[0].t_cam_marker[2]) - 0.7).abs() < 1e-12);
    assert_eq!(number(back[1].lin_speed), -1.0);
    assert_eq!(number(back[1].ang_speed), -1.0);
    let streams = vec!["raw_april_tags".to_string()];
    assert_eq!(
        ensure_raw_tag_stream(&streams, false, "raw_april_tags", "color_image"),
        RawTagStep::Present
    );
    assert_eq!(
        ensure_raw_tag_stream(&streams, false, "other_tags", "color_image"),
        RawTagStep::Impossible
    );
    assert_eq!(
        ensure_raw_tag_stream(&streams, true, "other_tags", "raw_april_tags"),
        RawTagStep::Detect
    );
}

fn stored(values: Vec<TagValue>) -> Vec<StoredSighting> {
    vec![StoredSighting {
        ts: bits(1.0),
        pose: [0; 7],
        view: (bits(0.5), bits(10.0)),
        values,
    }]
}

#[test]
fn sightings_without_their_tags_are_refused() {
    let numbers = |n: usize| -> Vec<TagValue> {
        (0..6)
            .map(|i| if i < n { TagValue::Number(bits(2.9)) } else { TagValue::Null })
            .collect()
    };
    for (n, key) in ["marker_id", "sharpness", "reproj_px", "tag_px"].iter().enumerate() {
        assert_eq!(
            read_raw_tag_stream("raw", &stored(numbers(n))).unwrap_err(),
            format!("raw: missing tag {key:?}")
        );
    }
    let back = read_raw_tag_stream("raw", &stored(numbers(4))).unwrap();
    assert_eq!(back[0].marker_id, 2);
    assert_eq!(back[0].lin_speed, UNKNOWN_SPEED);
    assert_eq!(back[0].distance_m, bits(0.5));
    assert_eq!(
        tag_number(&TagValue::Text("x".to_string(), None), "tag_px").unwrap_err(),
        "non-numeric tag tag_px=\"x\""
    );
    assert_eq!(
        tag_number(&TagValue::Text("4".to_string(), Some(bits(4.0))), "tag_px").unwrap(),
        Some(bits(4.0))
    );
    assert_eq!(
        tag_number(&TagValue::Blob, "tag_px").unwrap_err(),
        "unexpected blob tag tag_px"
    );
    let mut bad = numbers(6);
    bad[5] = TagValue::Blob;
    bad[0] = TagValue::Null;
    assert_eq!(
        read_raw_tag_stream("raw", &stored(bad)).unwrap_err(),
        "unexpected blob tag ang_speed"
    );
}

#[test]
fn tags_without_diagnostics_hold_the_marker_only() {
    let rows = write_tag_stream(&detections(), &[None, None]);
    assert_eq!(rows.len(), 2);
    assert_eq!(tags_json(&rows[1].tags), "{\"marker_id\": 7}");
    let rows = write_tag_stream(&detections()[..1], &[Some(diagnostics_of(&detections()[0]))]);
    assert_eq!(
        tags_json(&rows[0].tags),
        "{\"marker_id\": 3, \"sharpness\": 120.0, \"reproj_px\": 0.4, \"tag_px\": 55.0, \
         \"distance_m\": 0.0, \"view_angle_deg\": 0.0, \"lin_speed\": 0.2, \"ang_speed\": 12.0}"
    );
}

// ---- glimpses ----

#[test]
fn glimpses_fail_one_gate_at_a_time() {
    let good = Detection {
        lin_speed: bits(0.1),
        ang_speed: bits(5.0),
        ..detections()[0]
    };
    let gates = GlimpseGates::default();
    let near = (bits(0.5), bits(10.0));
    let check = |d: &Detection, distance: u64, angle: u64| glimpse_passes(d, distance, angle, &gates);
    assert_eq!(check(&good, near.0, near.1), None);
    let worse = [
        Detection { sharpness: bits(59.0), ..good },
        Detection { reproj_px: bits(2.5), ..good },
        Detection { tag_px: bits(23.0), ..good },
        Detection { lin_speed: bits(0.6), ..good },
        Detection { ang_speed: bits(51.0), ..good },
    ];
    let mut reasons: HashSet<&str> = HashSet::new();
    for d in &worse {
        reasons.insert(check(d, near.0, near.1).unwrap());
    }
    reasons.insert(check(&good, bits(1.5), near.1).unwrap());
    reasons.insert(check(&good, near.0, bits(46.0)).unwrap());
    assert!(reasons.len() >= 5);
    // speeds that are not known are not held against a glimpse
    let unknown = Detection { lin_speed: bits(-1.0), ang_speed: bits(-1.0), ..good };
    assert_eq!(check(&unknown, near.0, near.1), None);
    assert_eq!(glimpse_passes(&worse[0], near.0, near.1, &landmark_gates()), None);
    let kept = filter_glimpses(&[good, worse[0], good], &[near, near, near], &HashSet::new(), &gates);
    assert_eq!(kept.len(), 2);
    // what has passed passes again
    let again = filter_glimpses(&kept, &[near, near], &HashSet::new(), &gates);
    assert_eq!(again.len(), 2);
    let ignored = filter_glimpses(&[good], &[near], &HashSet::from([3]), &gates);
    assert!(ignored.is_empty());
}
