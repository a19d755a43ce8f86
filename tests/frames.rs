use kcursor::{nearest_frames, svg_frames, xcursor_frames, Image};

fn frame(size: u32, tag: u8) -> Image {
    Image { size, width: 1, height: 1, xhot: 0, yhot: 0, delay: tag as u32, pixels: vec![tag, 0, 0, 255] }
}

fn tags(v: &[Image]) -> Vec<u8> {
    v.iter().map(|i| i.pixels[0]).collect()
}

// A legacy cursor file holding one 4x4 image of nominal size 4, hotspot (1, 1)
// and delay 1, every pixel [0, 0, 0, 128].
const ONE_IMAGE: [u8; 128] = [
    0x58, 0x63, 0x75, 0x72, 0x10, 0x00, 0x00, 0x00, 0x00, 0x00, 0x01, 0x00, 0x01, 0x00, 0x00,
    0x00, 0x02, 0x00, 0xFD, 0xFF, 0x04, 0x00, 0x00, 0x00, 0x1C, 0x00, 0x00, 0x00, 0x24, 0x00,
    0x00, 0x00, 0x02, 0x00, 0xFD, 0xFF, 0x04, 0x00, 0x00, 0x00, 0x01, 0x00, 0x00, 0x00, 0x04,
    0x00, 0x00, 0x00, 0x04, 0x00, 0x00, 0x00, 0x01, 0x00, 0x00, 0x00, 0x01, 0x00, 0x00, 0x00,
    0x01, 0x00, 0x00, 0x00, 0x00, 0x00, 0x00, 0x80, 0x00, 0x00, 0x00, 0x80, 0x00, 0x00, 0x00,
    0x80, 0x00, 0x00, 0x00, 0x80, 0x00, 0x00, 0x00, 0x80, 0x00, 0x00, 0x00, 0x80, 0x00, 0x00,
    0x00, 0x80, 0x00, 0x00, 0x00, 0x80, 0x00, 0x00, 0x00, 0x80, 0x00, 0x00, 0x00, 0x80, 0x00,
    0x00, 0x00, 0x80, 0x00, 0x00, 0x00, 0x80, 0x00, 0x00, 0x00, 0x80, 0x00, 0x00, 0x00, 0x80,
    0x00, 0x00, 0x00, 0x80, 0x00, 0x00, 0x00, 0x80,
];

#[test]
fn nearest_size_between_embedded_sizes() {
    let images = vec![frame(24, 1), frame(32, 2), frame(48, 3), frame(32, 4), frame(24, 5)];
    let out = nearest_frames(images, 30).unwrap();
    assert_eq!(tags(&out), vec![2, 4]);
    assert!(out.iter().all(|i| i.size == 32));
}

#[test]
fn nearest_size_exact_match() {
    let images = vec![frame(24, 1), frame(32, 2), frame(48, 3), frame(48, 4)];
    let out = nearest_frames(images, 48).unwrap();
    assert_eq!(tags(&out), vec![3, 4]);
}

#[test]
fn nearest_size_tie_goes_to_first() {
    let images = vec![frame(32, 1), frame(28, 2), frame(32, 3)];
    let out = nearest_frames(images, 30).unwrap();
    assert_eq!(tags(&out), vec![1, 3]);
}

#[test]
fn nearest_size_extremes() {
    let images = vec![frame(0, 1), frame(u32::MAX, 2)];
    assert_eq!(tags(&nearest_frames(images, u32::MAX).unwrap()), vec![2]);
    let images = vec![frame(0, 1), frame(u32::MAX, 2)];
    assert_eq!(tags(&nearest_frames(images, 0).unwrap()), vec![1]);
}

#[test]
fn nearest_of_nothing_is_not_found() {
    assert!(nearest_frames(Vec::new(), 24).is_none());
}

#[test]
fn legacy_file_decoded() {
    let out = xcursor_frames(&ONE_IMAGE, 48).unwrap();
    assert_eq!(out.len(), 1);
    let f = &out[0];
    assert_eq!((f.size, f.width, f.height, f.xhot, f.yhot, f.delay), (4, 4, 4, 1, 1, 1));
    assert_eq!(f.pixels.len(), 4 * 4 * 4);
    assert_eq!(f.pixels, [0u8, 0, 0, 128].repeat(16));
}

#[test]
fn legacy_file_repeatable() {
    let a = xcursor_frames(&ONE_IMAGE, 24).unwrap();
    let b = xcursor_frames(&ONE_IMAGE, 24).unwrap();
    assert_eq!(a.len(), b.len());
    for (x, y) in a.iter().zip(b.iter()) {
        assert_eq!(x.pixels, y.pixels);
        assert_eq!((x.size, x.width, x.height, x.xhot, x.yhot), (y.size, y.width, y.height, y.xhot, y.yhot));
    }
}

#[test]
fn legacy_file_without_images_is_not_found() {
    let mut bytes = b"Xcur".to_vec();
    bytes.extend_from_slice(&16u32.to_le_bytes());
    bytes.extend_from_slice(&0x10000u32.to_le_bytes());
    bytes.extend_from_slice(&0u32.to_le_bytes());
    assert!(xcursor_frames(&bytes, 24).is_none());
}

#[test]
fn legacy_file_invalid_is_not_found() {
    assert!(xcursor_frames(b"not a cursor", 24).is_none());
    assert!(xcursor_frames(&ONE_IMAGE[..100], 24).is_none());
}

#[test]
fn vector_frames_all_in_order() {
    let out = svg_frames(vec![Some(frame(48, 1)), Some(frame(48, 2))]).unwrap();
    assert_eq!(tags(&out), vec![1, 2]);
}

#[test]
fn vector_frames_fail_as_a_whole() {
    assert!(svg_frames(vec![Some(frame(48, 1)), None, Some(frame(48, 3))]).is_none());
}

#[test]
fn vector_frames_empty_is_not_found() {
    assert!(svg_frames(Vec::new()).is_none());
}
