//! The window icon: the largest image of an `.ico` file, decoded.
//!
//! An `.ico` file starts with a 6-byte header whose bytes 4..6 hold the
//! image count (little endian), followed by one 16-byte directory entry
//! per image: byte 0 is the width in pixels (0 meaning 256), bytes 8..12
//! the image's size and bytes 12..16 its offset in the file (both little
//! endian). The images of the apps' icon are PNG files.

use vstd::prelude::*;

verus! {

/// A decoded icon image: RGBA pixels, row by row.
#[derive(Clone, Debug, PartialEq, Eq)]
pub struct Icon {
    pub rgba: Vec<u8>,
    pub width: u32,
    pub height: u32,
}

/// The 16-bit little-endian number at `i`.
pub open spec fn u16_le(b: Seq<u8>, i: int) -> int {
    b[i] + 256 * b[i + 1]
}

/// The 32-bit little-endian number at `i`.
pub open spec fn u32_le(b: Seq<u8>, i: int) -> int {
    b[i] + 256 * b[i + 1] + 65536 * b[i + 2] + 16777216 * b[i + 3]
}

/// Where the directory entry of image `i` starts.
pub open spec fn entry_start(i: int) -> int {
    6 + 16 * i
}

/// The file holds the whole directory entry of image `i`.
pub open spec fn has_entry(b: Seq<u8>, i: int) -> bool {
    0 <= i && entry_start(i) + 16 <= b.len()
}

/// The width in pixels that the entry of image `i` gives (0 meaning 256).
pub open spec fn entry_pixels(b: Seq<u8>, i: int) -> int {
    if b[entry_start(i)] == 0 {
        256
    } else {
        b[entry_start(i)] as int
    }
}

/// Among the first `n` images whose entry the file holds, the last one of
/// the largest width.
pub open spec fn largest_entry(b: Seq<u8>, n: int) -> Option<int>
    decreases n,
{
    if n <= 0 {
        None
    } else {
        let prev = largest_entry(b, n - 1);
        if has_entry(b, n - 1) && (prev is None || entry_pixels(b, prev->0) <= entry_pixels(
            b,
            n - 1,
        )) {
            Some(n - 1)
        } else {
            prev
        }
    }
}

/// The byte range of the largest image, when the header, its entry and the
/// image itself lie within the file.
pub open spec fn largest_image(b: Seq<u8>) -> Option<(int, int)> {
    if b.len() < 6 {
        None
    } else {
        match largest_entry(b, u16_le(b, 4)) {
            None => None,
            Some(i) => {
                let size = u32_le(b, entry_start(i) + 8);
                let offset = u32_le(b, entry_start(i) + 12);
                if offset + size <= b.len() {
                    Some((offset, offset + size))
                } else {
                    None
                }
            },
        }
    }
}

/// What `eframe::icon_data::from_png_bytes` gives for the bytes `png`:
/// the RGBA pixels, width and height of the decoded image, or nothing when
/// they are not a valid PNG.
pub uninterp spec fn png_image(png: Seq<u8>) -> Option<(Seq<u8>, u32, u32)>;

/// The decoded icon as plain values.
pub open spec fn icon_value(i: Option<Icon>) -> Option<(Seq<u8>, u32, u32)> {
    match i {
        Some(icon) => Some((icon.rgba@, icon.width, icon.height)),
        None => None,
    }
}

/// `eframe::icon_data::from_png_bytes`: decodes a PNG image into RGBA
/// pixels; nothing when the bytes are not a valid PNG.
#[verifier::external_body]
fn decode_png(png: &[u8]) -> (r: Option<Icon>)
    ensures
        icon_value(r) == png_image(png@),
{
    match eframe::icon_data::from_png_bytes(png) {
        Ok(d) => Some(Icon { rgba: d.rgba, width: d.width, height: d.height }),
        Err(_) => None,
    }
}

fn read_u32_le(b: &[u8], i: usize) -> (r: u64)
    requires
        i + 4 <= b@.len(),
    ensures
        r == u32_le(b@, i as int),
{
    b[i] as u64 + 256 * (b[i + 1] as u64) + 65536 * (b[i + 2] as u64) + 16777216 * (b[i
        + 3] as u64)
}

/// The largest image of an `.ico` file, decoded: `None` when the file is
/// too short, has no complete directory entry, the chosen image lies
/// outside the file, or it is not a valid PNG.
pub fn app_icon(ico: &[u8]) -> (r: Option<Icon>)
    ensures
        icon_value(r) == match largest_image(ico@) {
            None => None,
            Some(range) => png_image(ico@.subrange(range.0, range.1)),
        },
{
    let len = ico.len();
    if len < 6 {
        return None;
    }
    let count: usize = ico[4] as usize + 256 * (ico[5] as usize);
    let mut best: Option<usize> = None;
    let mut best_px: u32 = 0;
    let mut i: usize = 0;
    while i < count
        invariant
            len == ico@.len(),
            len >= 6,
            count == u16_le(ico@, 4),
            i <= count,
            best == match largest_entry(ico@, i as int) {
                Some(k) => Some(k as usize),
                None => None::<usize>,
            },
            largest_entry(ico@, i as int) matches Some(k) ==> 0 <= k < i && has_entry(ico@, k)
                && best_px == entry_pixels(ico@, k),
        decreases count - i,
    {
        if 22 + 16 * i <= len {
            let w = ico[6 + 16 * i];
            let px: u32 = if w == 0 {
                256
            } else {
                w as u32
            };
            if best.is_none() || best_px <= px {
                best = Some(i);
                best_px = px;
            }
        }
        i += 1;
    }
    match best {
        None => None,
        Some(k) => {
            let start = 6 + 16 * k;
            let size = read_u32_le(ico, start + 8);
            let offset = read_u32_le(ico, start + 12);
            if offset + size <= len as u64 {
                let png = vstd::slice::slice_subrange(ico, offset as usize, (offset + size) as usize);
                decode_png(png)
            } else {
                None
            }
        },
    }
}

/// The image chosen among the first `n` is a complete entry of the
/// largest width; no later complete entry is as large, so of equally large
/// images the last one is taken. None is chosen only when no entry is
/// complete.
pub proof fn lemma_largest_entry(b: Seq<u8>, n: int)
    ensures
        largest_entry(b, n) matches Some(k) ==> {
            &&& 0 <= k < n
            &&& has_entry(b, k)
            &&& forall|j: int| 0 <= j < n && has_entry(b, j) ==> entry_pixels(b, j) <= entry_pixels(b, k)
            &&& forall|j: int| k < j < n && has_entry(b, j) ==> entry_pixels(b, j) < entry_pixels(b, k)
        },
        largest_entry(b, n) is None ==> forall|j: int| 0 <= j < n ==> !has_entry(b, j),
    decreases n,
{
    if n > 0 {
        lemma_largest_entry(b, n - 1);
    }
}

/// The number read at `i` is the 32-bit number whose little-endian bytes
/// are `b[i..i + 4]`: its base-256 digits, lowest first, are those bytes.
pub proof fn lemma_u32_le_bytes(b: Seq<u8>, i: int)
    requires
        0 <= i,
        i + 4 <= b.len(),
    ensures
        0 <= u32_le(b, i) < 0x1_0000_0000,
        u32_le(b, i) % 256 == b[i],
        (u32_le(b, i) / 256) % 256 == b[i + 1],
        (u32_le(b, i) / 65536) % 256 == b[i + 2],
        u32_le(b, i) / 16777216 == b[i + 3],
{
    let b0 = b[i] as int;
    let b1 = b[i + 1] as int;
    let b2 = b[i + 2] as int;
    let b3 = b[i + 3] as int;
    assert(0 <= b0 < 256 && 0 <= b1 < 256 && 0 <= b2 < 256 && 0 <= b3 < 256);
    let v = b0 + 256 * b1 + 65536 * b2 + 16777216 * b3;
    assert(v == u32_le(b, i));
    vstd::arithmetic::div_mod::lemma_fundamental_div_mod_converse(v, 256, b1 + 256 * b2 + 65536 * b3, b0);
    vstd::arithmetic::div_mod::lemma_fundamental_div_mod_converse(b1 + 256 * b2 + 65536 * b3, 256, b2 + 256 * b3, b1);
    vstd::arithmetic::div_mod::lemma_fundamental_div_mod_converse(v, 65536, b2 + 256 * b3, b0 + 256 * b1);
    vstd::arithmetic::div_mod::lemma_fundamental_div_mod_converse(b2 + 256 * b3, 256, b3, b2);
    vstd::arithmetic::div_mod::lemma_fundamental_div_mod_converse(v, 16777216, b3, b0 + 256 * b1 + 65536 * b2);
}

/// The count read at `i` is the 16-bit number whose little-endian bytes
/// are `b[i..i + 2]`.
pub proof fn lemma_u16_le_bytes(b: Seq<u8>, i: int)
    requires
        0 <= i,
        i + 2 <= b.len(),
    ensures
        0 <= u16_le(b, i) < 0x1_0000,
        u16_le(b, i) % 256 == b[i],
        u16_le(b, i) / 256 == b[i + 1],
{
    vstd::arithmetic::div_mod::lemma_fundamental_div_mod_converse(
        u16_le(b, i),
        256,
        b[i + 1] as int,
        b[i] as int,
    );
}

} // verus!
