use stock_calc::icon::app_icon;

/// A valid 1x1 PNG.
const PNG: [u8; 67] = [
    0x89, 0x50, 0x4E, 0x47, 0x0D, 0x0A, 0x1A, 0x0A, 0x00, 0x00, 0x00, 0x0D, 0x49, 0x48, 0x44, 0x52,
    0x00, 0x00, 0x00, 0x01, 0x00, 0x00, 0x00, 0x01, 0x08, 0x06, 0x00, 0x00, 0x00, 0x1F, 0x15, 0xC4,
    0x89, 0x00, 0x00, 0x00, 0x0A, 0x49, 0x44, 0x41, 0x54, 0x78, 0x9C, 0x63, 0x00, 0x01, 0x00, 0x00,
    0x05, 0x00, 0x01, 0x0D, 0x0A, 0x2D, 0xB4, 0x00, 0x00, 0x00, 0x00, 0x49, 0x45, 0x4E, 0x44, 0xAE,
    0x42, 0x60, 0x82,
];

/// An .ico file whose directory lists `entries` as (width byte, size, offset)
/// followed by `payload`.
fn ico(entries: &[(u8, u32, u32)], payload: &[u8]) -> Vec<u8> {
    let mut b = vec![0, 0, 1, 0];
    b.extend_from_slice(&(entries.len() as u16).to_le_bytes());
    for &(w, size, offset) in entries {
        b.extend_from_slice(&[w, w, 0, 0, 1, 0, 32, 0]);
        b.extend_from_slice(&size.to_le_bytes());
        b.extend_from_slice(&offset.to_le_bytes());
    }
    b.extend_from_slice(payload);
    b
}

#[test]
fn picks_the_largest_image() {
    // two entries: a 16 px one pointing at junk and a 256 px one (width 0)
    // pointing at the PNG
    let header = 6 + 16 * 2;
    let mut payload = vec![1, 2, 3, 4];
    payload.extend_from_slice(&PNG);
    let file = ico(&[(16, 4, header), (0, PNG.len() as u32, header + 4)], &payload);
    let icon = app_icon(&file).expect("icon");
    assert_eq!((icon.width, icon.height), (1, 1));
    assert_eq!(icon.rgba.len(), 4);
}

#[test]
fn of_equal_images_the_last_is_taken() {
    let header = 6 + 16 * 2;
    let mut payload = PNG.to_vec();
    payload.extend_from_slice(&[9, 9, 9]);
    // both 32 px; the second points at junk, so the result is None
    let file = ico(&[(32, PNG.len() as u32, header), (32, 3, header + PNG.len() as u32)], &payload);
    assert!(app_icon(&file).is_none());
    // swapped, the last one is the PNG
    let file = ico(&[(32, 3, header + PNG.len() as u32), (32, PNG.len() as u32, header)], &payload);
    assert!(app_icon(&file).is_some());
}

#[test]
fn broken_files_give_no_icon() {
    assert!(app_icon(&[]).is_none());
    assert!(app_icon(&[0, 0, 1, 0, 1]).is_none());
    // a count of one but no directory entry
    assert!(app_icon(&[0, 0, 1, 0, 1, 0]).is_none());
    // the image lies past the end of the file
    let file = ico(&[(16, 1000, 22)], &PNG);
    assert!(app_icon(&file).is_none());
}
