//! Matching a colour to the nearest palette entry.
use vstd::prelude::*;

verus! {

/// An opaque 24-bit colour.
#[derive(Debug, Clone, Copy, PartialEq, Eq, Structural)]
pub struct Rgb {
    pub r: u8,
    pub g: u8,
    pub b: u8,
}

impl Rgb {
    /// The colour with the given channels.
    pub fn from_rgb(r: u8, g: u8, b: u8) -> (c: Rgb)
        ensures
            c == (Rgb { r, g, b }),
    {
        Rgb { r, g, b }
    }
}

/// Squared Euclidean distance between two colours.
pub open spec fn spec_dist_rgb2(a: Rgb, b: Rgb) -> int {
    (a.r - b.r) * (a.r - b.r) + (a.g - b.g) * (a.g - b.g) + (a.b - b.b) * (a.b - b.b)
}

/// `i` is the first entry of `palette` at the smallest distance from `color`.
pub open spec fn is_first_nearest(color: Rgb, palette: Seq<Rgb>, i: int) -> bool {
    &&& 0 <= i < palette.len()
    &&& forall|j: int|
        0 <= j < palette.len() ==> spec_dist_rgb2(color, palette[i]) <= #[trigger] spec_dist_rgb2(
            color,
            palette[j],
        )
    &&& forall|j: int|
        0 <= j < i ==> spec_dist_rgb2(color, palette[i]) < #[trigger] spec_dist_rgb2(
            color,
            palette[j],
        )
}

/// The index `best_index_rgb` returns: the first entry at the smallest
/// distance (unique, see `lemma_first_nearest_unique`).
pub open spec fn nearest_index(color: Rgb, palette: Seq<Rgb>) -> int {
    choose|i: int| is_first_nearest(color, palette, i)
}

/// At most one index is the first nearest one.
pub proof fn lemma_first_nearest_unique(color: Rgb, palette: Seq<Rgb>, i: int, j: int)
    requires
        is_first_nearest(color, palette, i),
        is_first_nearest(color, palette, j),
    ensures
        i == j,
{
    if i < j {
        assert(spec_dist_rgb2(color, palette[j]) < spec_dist_rgb2(color, palette[i]));
    } else if j < i {
        assert(spec_dist_rgb2(color, palette[i]) < spec_dist_rgb2(color, palette[j]));
    }
}

/// A first nearest index is the one `nearest_index` names.
pub proof fn lemma_nearest_index(color: Rgb, palette: Seq<Rgb>, i: int)
    requires
        is_first_nearest(color, palette, i),
    ensures
        nearest_index(color, palette) == i,
{
    let k = nearest_index(color, palette);
    assert(is_first_nearest(color, palette, k));
    lemma_first_nearest_unique(color, palette, i, k);
}

proof fn lemma_square_bound(d: int)
    requires
        -255 <= d <= 255,
    ensures
        0 <= d * d <= 65025,
{
    assert(0 <= d * d <= 65025) by (nonlinear_arith)
        requires
            -255 <= d <= 255,
    ;
}

/// Squared Euclidean distance between two colours.
pub fn dist_rgb2(a: Rgb, b: Rgb) -> (d: u32)
    ensures
        d == spec_dist_rgb2(a, b),
        d <= 195075,
{
    let dr = a.r as i32 - b.r as i32;
    let dg = a.g as i32 - b.g as i32;
    let db = a.b as i32 - b.b as i32;
    proof {
        lemma_square_bound(dr as int);
        lemma_square_bound(dg as int);
        lemma_square_bound(db as int);
    }
    (dr * dr + dg * dg + db * db) as u32
}

/// The index of the palette entry nearest to `color` (squared Euclidean
/// distance); among equally near entries, the first.
pub fn best_index_rgb(color: Rgb, palette: &[Rgb; 256]) -> (idx: u8)
    ensures
        is_first_nearest(color, palette@, idx as int),
        idx == nearest_index(color, palette@),
{
    let mut best: u8 = 0;
    let mut best_d: u32 = u32::MAX;
    let mut i: u16 = 0;
    while i < 256
        invariant
            i <= 256,
            palette@.len() == 256,
            i == 0 ==> best_d == u32::MAX && best == 0,
            i > 0 ==> {
                &&& best < i
                &&& best_d == spec_dist_rgb2(color, palette@[best as int])
                &&& forall|j: int|
                    0 <= j < i ==> best_d <= #[trigger] spec_dist_rgb2(color, palette@[j])
                &&& forall|j: int|
                    0 <= j < best ==> best_d < #[trigger] spec_dist_rgb2(color, palette@[j])
            },
        decreases 256 - i,
    {
        let d = dist_rgb2(color, palette[i as usize]);
        if d < best_d {
            best_d = d;
            best = i as u8;
            if d == 0 {
                proof {
                    assert forall|j: int| 0 <= j < palette@.len() implies best_d
                        <= #[trigger] spec_dist_rgb2(color, palette@[j]) by {
                        lemma_dist_nonneg(color, palette@[j]);
                    }
                    lemma_nearest_index(color, palette@, best as int);
                }
                return best;
            }
        }
        i = i + 1;
    }
    proof {
        lemma_nearest_index(color, palette@, best as int);
    }
    best
}

proof fn lemma_dist_nonneg(a: Rgb, b: Rgb)
    ensures
        0 <= spec_dist_rgb2(a, b),
{
    lemma_square_bound(a.r - b.r);
    lemma_square_bound(a.g - b.g);
    lemma_square_bound(a.b - b.b);
}

/// A colour that occurs in the palette is matched to its first occurrence.
pub proof fn lemma_exact_color_maps_to_first_occurrence(
    color: Rgb,
    palette: Seq<Rgb>,
    k: int,
    i: int,
)
    requires
        0 <= k < palette.len(),
        palette[k] == color,
        forall|j: int| 0 <= j < k ==> palette[j] != color,
        is_first_nearest(color, palette, i),
    ensures
        i == k,
{
    assert(spec_dist_rgb2(color, palette[k]) == 0);
    lemma_dist_nonneg(color, palette[i]);
    assert(spec_dist_rgb2(color, palette[i]) == 0);
    lemma_dist_zero(color, palette[i]);
    if i < k {
        assert(palette[i] != color);
    } else if i > k {
        assert(spec_dist_rgb2(color, palette[i]) < spec_dist_rgb2(color, palette[k]));
    }
}

proof fn lemma_dist_zero(a: Rgb, b: Rgb)
    requires
        spec_dist_rgb2(a, b) == 0,
    ensures
        a == b,
{
    lemma_square_bound(a.r - b.r);
    lemma_square_bound(a.g - b.g);
    lemma_square_bound(a.b - b.b);
    assert((a.r - b.r) * (a.r - b.r) == 0);
    assert((a.g - b.g) * (a.g - b.g) == 0);
    assert((a.b - b.b) * (a.b - b.b) == 0);
    assert(a.r - b.r == 0) by (nonlinear_arith)
        requires
            (a.r - b.r) * (a.r - b.r) == 0,
    ;
    assert(a.g - b.g == 0) by (nonlinear_arith)
        requires
            (a.g - b.g) * (a.g - b.g) == 0,
    ;
    assert(a.b - b.b == 0) by (nonlinear_arith)
        requires
            (a.b - b.b) * (a.b - b.b) == 0,
    ;
}

} // verus!
