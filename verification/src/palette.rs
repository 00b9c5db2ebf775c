//! 256-colour palettes and the `.pal` file format (768 bytes: R, G, B for
//! each of the 256 entries).
use vstd::prelude::*;

use crate::color_match::Rgb;
use crate::image_io::{ext_equals, ext_is};

verus! {

/// Why bytes are not a `.pal` file.
#[derive(Debug, Clone, Copy, PartialEq, Eq, Structural)]
pub enum PaletteError {
    /// Fewer than 768 bytes.
    TooShort,
}

/// A 256-entry colour table; pixel values of a frame index into it.
#[derive(Clone, Copy)]
pub struct Palette {
    pub colors: [Rgb; 256],
}

/// The grey level `i` for every entry `i`.
pub open spec fn is_grayscale(p: Palette) -> bool {
    forall|i: int| 0 <= i < 256 ==> #[trigger] p.colors@[i] == (Rgb { r: i as u8, g: i as u8, b: i as u8 })
}

/// Entry `i` of the palette stored in `bytes`.
pub open spec fn pal_entry(bytes: Seq<u8>, i: int) -> Rgb {
    Rgb { r: bytes[3 * i], g: bytes[3 * i + 1], b: bytes[3 * i + 2] }
}

/// The 768 bytes that store `p`.
pub open spec fn spec_pal_bytes(p: Palette) -> Seq<u8> {
    Seq::new(
        768,
        |k: int|
            {
                let c = p.colors@[k / 3];
                if k % 3 == 0 {
                    c.r
                } else if k % 3 == 1 {
                    c.g
                } else {
                    c.b
                }
            },
    )
}

/// The ASCII bytes of "pal".
pub open spec fn word_pal() -> Seq<u8> {
    seq![112u8, 97u8, 108u8]
}

/// Whether a file extension, in any letter case, is that of a `.pal` file.
pub fn is_pal_extension(ext: &[u8]) -> (r: bool)
    ensures
        r == ext_is(ext@, word_pal()),
{
    let pal: [u8; 3] = [112, 97, 108];
    assert(pal@ =~= word_pal());
    ext_equals(ext, &pal)
}

impl Palette {
    /// The grey ramp: entry `i` is the grey `(i, i, i)`.
    pub fn default_grayscale() -> (p: Palette)
        ensures
            is_grayscale(p),
    {
        let mut arr = [Rgb { r: 0, g: 0, b: 0 }; 256];
        let mut i: usize = 0;
        while i < 256
            invariant
                i <= 256,
                arr@.len() == 256,
                forall|j: int| 0 <= j < i ==> #[trigger] arr@[j] == (Rgb { r: j as u8, g: j as u8, b: j as u8 }),
            decreases 256 - i,
        {
            let v = i as u8;
            arr[i] = Rgb::from_rgb(v, v, v);
            i = i + 1;
        }
        Palette { colors: arr }
    }

    /// Reads a palette from the first 768 bytes of a `.pal` file.
    pub fn from_bytes(bytes: &[u8]) -> (res: Result<Palette, PaletteError>)
        ensures
            bytes@.len() < 768 ==> res == Err::<Palette, PaletteError>(PaletteError::TooShort),
            bytes@.len() >= 768 ==> (res matches Ok(p) && forall|i: int|
                0 <= i < 256 ==> #[trigger] p.colors@[i] == pal_entry(bytes@, i)),
    {
        if bytes.len() < 256 * 3 {
            return Err(PaletteError::TooShort);
        }
        let mut arr = [Rgb { r: 0, g: 0, b: 0 }; 256];
        let mut i: usize = 0;
        while i < 256
            invariant
                i <= 256,
                arr@.len() == 256,
                bytes@.len() >= 768,
                forall|j: int| 0 <= j < i ==> #[trigger] arr@[j] == pal_entry(bytes@, j),
            decreases 256 - i,
        {
            let r = bytes[i * 3];
            let g = bytes[i * 3 + 1];
            let b = bytes[i * 3 + 2];
            arr[i] = Rgb::from_rgb(r, g, b);
            i = i + 1;
        }
        Ok(Palette { colors: arr })
    }

    /// The 768 bytes of a `.pal` file holding this palette.
    pub fn to_bytes(&self) -> (out: Vec<u8>)
        ensures
            out@ == spec_pal_bytes(*self),
    {
        let mut out: Vec<u8> = Vec::new();
        let mut i: usize = 0;
        while i < 256
            invariant
                i <= 256,
                self.colors@.len() == 256,
                out@.len() == 3 * i,
                forall|k: int| 0 <= k < 3 * i ==> #[trigger] out@[k] == spec_pal_bytes(*self)[k],
            decreases 256 - i,
        {
            let c = self.colors[i];
            out.push(c.r);
            out.push(c.g);
            out.push(c.b);
            proof {
                assert forall|k: int| 0 <= k < 3 * (i + 1) implies #[trigger] out@[k]
                    == spec_pal_bytes(*self)[k] by {
                    if k >= 3 * i {
                        assert(k / 3 == i);
                    }
                }
            }
            i = i + 1;
        }
        assert(out@ =~= spec_pal_bytes(*self));
        out
    }
}

/// Reading back the bytes a palette is stored as gives the same palette.
pub proof fn lemma_pal_bytes_roundtrip(p: Palette)
    ensures
        spec_pal_bytes(p).len() == 768,
        forall|i: int| 0 <= i < 256 ==> #[trigger] pal_entry(spec_pal_bytes(p), i) == p.colors@[i],
{
    assert forall|i: int| 0 <= i < 256 implies #[trigger] pal_entry(spec_pal_bytes(p), i)
        == p.colors@[i] by {
        assert((3 * i) / 3 == i);
        assert((3 * i + 1) / 3 == i);
        assert((3 * i + 2) / 3 == i);
        assert((3 * i) % 3 == 0);
        assert((3 * i + 1) % 3 == 1);
        assert((3 * i + 2) % 3 == 2);
    }
}

/// Storing a palette read from a `.pal` file gives back the file's first
/// 768 bytes.
pub proof fn lemma_pal_entries_roundtrip(bytes: Seq<u8>, p: Palette)
    requires
        bytes.len() >= 768,
        forall|i: int| 0 <= i < 256 ==> #[trigger] p.colors@[i] == pal_entry(bytes, i),
    ensures
        spec_pal_bytes(p) == bytes.take(768),
{
    assert forall|k: int| 0 <= k < 768 implies #[trigger] spec_pal_bytes(p)[k] == bytes.take(
        768,
    )[k] by {
        let i = k / 3;
        assert(p.colors@[i] == pal_entry(bytes, i));
        assert(k == 3 * i + k % 3);
    }
    assert(spec_pal_bytes(p) =~= bytes.take(768));
}

} // verus!
