//! Which decoder an imported picture needs, by its file extension.
use vstd::prelude::*;

verus! {

/// How a picture file is read.
#[derive(Debug, Clone, Copy, PartialEq, Eq, Structural)]
pub enum ImageKind {
    /// PNG: one picture.
    Png,
    /// JPEG: one picture.
    Jpeg,
    /// GIF: every frame of the animation.
    Gif,
    /// Animated PNG: read as a PNG, so only its first frame is imported.
    Apng,
}

/// `b` with ASCII upper-case letters made lower-case.
pub open spec fn ascii_lower(b: u8) -> u8 {
    if 65 <= b <= 90 {
        (b + 32) as u8
    } else {
        b
    }
}

/// The extension, lower-cased, is `word`.
pub open spec fn ext_is(ext: Seq<u8>, word: Seq<u8>) -> bool {
    ext.len() == word.len() && forall|i: int| 0 <= i < ext.len() ==> ascii_lower(#[trigger] ext[i]) == word[i]
}

/// The ASCII bytes of "png".
pub open spec fn word_png() -> Seq<u8> {
    seq![112u8, 110u8, 103u8]
}

/// The ASCII bytes of "jpg".
pub open spec fn word_jpg() -> Seq<u8> {
    seq![106u8, 112u8, 103u8]
}

/// The ASCII bytes of "jpeg".
pub open spec fn word_jpeg() -> Seq<u8> {
    seq![106u8, 112u8, 101u8, 103u8]
}

/// The ASCII bytes of "gif".
pub open spec fn word_gif() -> Seq<u8> {
    seq![103u8, 105u8, 102u8]
}

/// The ASCII bytes of "apng".
pub open spec fn word_apng() -> Seq<u8> {
    seq![97u8, 112u8, 110u8, 103u8]
}

/// The decoder for a file extension (its bytes, any letter case): `None`
/// for an extension that is not supported.
pub open spec fn spec_image_kind(ext: Seq<u8>) -> Option<ImageKind> {
    if ext_is(ext, word_png()) {
        Some(ImageKind::Png)
    } else if ext_is(ext, word_jpg()) || ext_is(ext, word_jpeg()) {
        Some(ImageKind::Jpeg)
    } else if ext_is(ext, word_gif()) {
        Some(ImageKind::Gif)
    } else if ext_is(ext, word_apng()) {
        Some(ImageKind::Apng)
    } else {
        None
    }
}

/// `b` lower-cased (ASCII letters only).
pub fn to_ascii_lower(b: u8) -> (r: u8)
    ensures
        r == ascii_lower(b),
{
    if 65 <= b && b <= 90 {
        b + 32
    } else {
        b
    }
}

/// Whether the extension, lower-cased, is `word`.
pub(crate) fn ext_equals(ext: &[u8], word: &[u8]) -> (r: bool)
    ensures
        r == ext_is(ext@, word@),
{
    if ext.len() != word.len() {
        return false;
    }
    let mut i: usize = 0;
    while i < ext.len()
        invariant
            i <= ext@.len(),
            ext@.len() == word@.len(),
            forall|j: int| 0 <= j < i ==> ascii_lower(#[trigger] ext@[j]) == word@[j],
        decreases ext@.len() - i,
    {
        if to_ascii_lower(ext[i]) != word[i] {
            return false;
        }
        i = i + 1;
    }
    true
}

/// The decoder for a file extension (see `spec_image_kind`).
pub fn image_kind_for_extension(ext: &[u8]) -> (k: Option<ImageKind>)
    ensures
        k == spec_image_kind(ext@),
{
    let png: [u8; 3] = [112, 110, 103];
    let jpg: [u8; 3] = [106, 112, 103];
    let jpeg: [u8; 4] = [106, 112, 101, 103];
    let gif: [u8; 3] = [103, 105, 102];
    let apng: [u8; 4] = [97, 112, 110, 103];
    assert(png@ =~= word_png());
    assert(jpg@ =~= word_jpg());
    assert(jpeg@ =~= word_jpeg());
    assert(gif@ =~= word_gif());
    assert(apng@ =~= word_apng());
    if ext_equals(ext, &png) {
        Some(ImageKind::Png)
    } else if ext_equals(ext, &jpg) || ext_equals(ext, &jpeg) {
        Some(ImageKind::Jpeg)
    } else if ext_equals(ext, &gif) {
        Some(ImageKind::Gif)
    } else if ext_equals(ext, &apng) {
        Some(ImageKind::Apng)
    } else {
        None
    }
}

} // verus!
