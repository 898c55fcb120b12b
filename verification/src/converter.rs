//! Turning a true-colour picture into a MEIF image with a palette of at most 255 colours.
//!
//! The palette is a `Vec` in the order in which colours join it, and it serves as the index
//! from colour to entry as well: a colour's position is its index. With at most 255 entries,
//! each lookup is a scan of the palette from its start. The three lookups (the colour itself,
//! a similar colour, the nearest colour) all walk the palette in that order, so where several
//! entries are similar to a pixel the first to join is taken, and where several are equally
//! near, again the first. That order is a choice of this library: a hash map from colour to
//! index would walk its entries in an order that is left open, and a contract could then say
//! only that some similar or some nearest entry is taken.
use vstd::prelude::*;
use crate::error::MEIFParserError;
use crate::image::{ImageModel, MEIFImage, Rgb};

verus! {

/// How far apart two channel values are.
pub open spec fn channel_gap(a: u8, b: u8) -> int {
    if a >= b { a - b } else { b - a }
}

/// The two colours differ by less than 20 in each channel.
pub open spec fn similar(a: Rgb, b: Rgb) -> bool {
    &&& channel_gap(a.r, b.r) < 20
    &&& channel_gap(a.g, b.g) < 20
    &&& channel_gap(a.b, b.b) < 20
}

/// The squared distance between two colours.
pub open spec fn distance(a: Rgb, b: Rgb) -> int {
    channel_gap(a.r, b.r) * channel_gap(a.r, b.r) + channel_gap(a.g, b.g) * channel_gap(a.g, b.g)
        + channel_gap(a.b, b.b) * channel_gap(a.b, b.b)
}

/// The first position at or after `i` where the palette holds exactly `c`.
pub open spec fn exact_from(p: Seq<Rgb>, c: Rgb, i: int) -> Option<int>
    decreases p.len() - i,
{
    if i < 0 || i >= p.len() {
        None
    } else if p[i] == c {
        Some(i)
    } else {
        exact_from(p, c, i + 1)
    }
}

/// The first position at or after `i` where the palette holds a colour similar to `c`.
pub open spec fn similar_from(p: Seq<Rgb>, c: Rgb, i: int) -> Option<int>
    decreases p.len() - i,
{
    if i < 0 || i >= p.len() {
        None
    } else if similar(p[i], c) {
        Some(i)
    } else {
        similar_from(p, c, i + 1)
    }
}

/// Scanning the palette from `i` on for the colour nearest to `c`, where `best` at distance
/// `best_d` is the nearest so far: a colour replaces it only when strictly nearer.
pub open spec fn closest_from(p: Seq<Rgb>, c: Rgb, i: int, best: int, best_d: int) -> int
    decreases p.len() - i,
{
    if i < 0 || i >= p.len() {
        best
    } else if distance(p[i], c) < best_d {
        closest_from(p, c, i + 1, i, distance(p[i], c))
    } else {
        closest_from(p, c, i + 1, best, best_d)
    }
}

/// The position of the first colour of the palette that is nearest to `c` (0 for an empty
/// palette).
pub open spec fn closest(p: Seq<Rgb>, c: Rgb) -> int {
    closest_from(p, c, 0, 0, u32::MAX as int)
}

/// The palette and pixel indices after one more pixel of colour `c`: the colour's own entry
/// if it has one; else the first similar entry; else, with 255 entries, the nearest entry;
/// else a new entry for `c`.
pub open spec fn convert_step(state: (Seq<Rgb>, Seq<u8>), c: Rgb) -> (Seq<Rgb>, Seq<u8>) {
    let (p, d) = state;
    match exact_from(p, c, 0) {
        Some(i) => (p, d.push(i as u8)),
        None => match similar_from(p, c, 0) {
            Some(i) => (p, d.push(i as u8)),
            None => if p.len() >= 255 {
                (p, d.push(closest(p, c) as u8))
            } else {
                (p.push(c), d.push(p.len() as u8))
            },
        },
    }
}

/// The palette and pixel indices after the first `k` pixels.
pub open spec fn convert_prefix(pixels: Seq<Rgb>, k: int) -> (Seq<Rgb>, Seq<u8>)
    decreases k,
{
    if k <= 0 {
        (seq![], seq![])
    } else {
        convert_step(convert_prefix(pixels, k - 1), pixels[k - 1])
    }
}

/// The palette and pixel indices for all the pixels.
pub open spec fn convert_spec(pixels: Seq<Rgb>) -> (Seq<Rgb>, Seq<u8>) {
    convert_prefix(pixels, pixels.len() as int)
}

/// The colours of a palette are all different.
pub open spec fn distinct_colors(p: Seq<Rgb>) -> bool {
    forall|i: int, j: int| 0 <= i < p.len() && 0 <= j < p.len() && i != j ==> p[i] != p[j]
}

/// Some pixel before position `n` has colour `c`.
pub open spec fn appears_before(pixels: Seq<Rgb>, c: Rgb, n: int) -> bool {
    exists|i: int| 0 <= i < n && pixels[i] == c
}

/// No two colours of a palette are similar.
pub open spec fn dissimilar_colors(p: Seq<Rgb>) -> bool {
    forall|i: int, j: int| #![trigger p[i], p[j]] 0 <= i < p.len() && 0 <= j < p.len() && i != j ==> !similar(p[i], p[j])
}

/// The palette lists colours in the order in which the first `k` pixels first show them:
/// wherever a pixel shows entry `jj`, every earlier entry has shown before that pixel.
pub open spec fn first_appearance_order(pixels: Seq<Rgb>, p: Seq<Rgb>, k: int) -> bool {
    forall|j: int, jj: int, ii: int| #![trigger p[j], p[jj], pixels[ii]]
        0 <= j < jj < p.len() && 0 <= ii < k && pixels[ii] == p[jj] ==> appears_before(pixels, p[j], ii)
}

/// Colours closer than this in every channel count as similar.
const THRESHOLD: u8 = 20;

/// A picture to convert: its size and, row by row, the colour of each pixel.
pub struct MEIFConverter {
    width: u32,
    height: u32,
    pixels: Vec<Rgb>,
}

proof fn lemma_exact_from(p: Seq<Rgb>, c: Rgb, i: int)
    requires
        0 <= i,
    ensures
        exact_from(p, c, i) matches Some(k) ==> i <= k < p.len() && p[k] == c,
        exact_from(p, c, i) is None ==> forall|j: int| i <= j < p.len() ==> p[j] != c,
    decreases p.len() - i,
{
    if i < p.len() && p[i] != c {
        lemma_exact_from(p, c, i + 1);
    }
}

proof fn lemma_similar_from(p: Seq<Rgb>, c: Rgb, i: int)
    requires
        0 <= i,
    ensures
        similar_from(p, c, i) matches Some(k) ==> i <= k < p.len() && similar(p[k], c),
        similar_from(p, c, i) is None ==> forall|j: int| i <= j < p.len() ==> !similar(#[trigger] p[j], c),
    decreases p.len() - i,
{
    if i < p.len() && !similar(p[i], c) {
        lemma_similar_from(p, c, i + 1);
    }
}

proof fn lemma_closest_from(p: Seq<Rgb>, c: Rgb, i: int, best: int, best_d: int)
    requires
        0 <= i <= p.len(),
        0 <= best < p.len() || (i < p.len() && best_d > 3 * 255 * 255),
    ensures
        0 <= closest_from(p, c, i, best, best_d) < p.len(),
    decreases p.len() - i,
{
    if i < p.len() {
        let d = distance(p[i], c);
        assert(d <= 3 * 255 * 255) by (nonlinear_arith)
            requires
                d == distance(p[i], c),
                0 <= channel_gap(p[i].r, c.r) <= 255,
                0 <= channel_gap(p[i].g, c.g) <= 255,
                0 <= channel_gap(p[i].b, c.b) <= 255,
        ;
        if d < best_d {
            lemma_closest_from(p, c, i + 1, i, d);
        } else {
            lemma_closest_from(p, c, i + 1, best, best_d);
        }
    }
}

/// What every prefix of the conversion keeps: one index per pixel, each naming an entry of a
/// palette of at most 255 different colours, each of them the colour of some pixel; a pixel
/// whose colour is in the palette names that colour; while the palette has room, every pixel
/// names a colour similar to its own; no two palette colours are similar; and the palette
/// comes in the order in which the pixels first show its colours.
proof fn lemma_convert_prefix(pixels: Seq<Rgb>, k: int)
    requires
        0 <= k <= pixels.len(),
    ensures ({
        let (p, d) = convert_prefix(pixels, k);
        &&& p.len() <= 255
        &&& d.len() == k
        &&& distinct_colors(p)
        &&& forall|i: int| 0 <= i < k ==> (#[trigger] d[i]) < p.len()
        &&& forall|i: int, j: int| 0 <= i < k && 0 <= j < p.len() && #[trigger] p[j] == #[trigger] pixels[i] ==> d[i] == j
        &&& forall|j: int| #![trigger p[j]] 0 <= j < p.len() ==> exists|i: int| 0 <= i < k && #[trigger] pixels[i] == p[j]
        &&& p.len() < 255 ==> forall|i: int| 0 <= i < k ==> similar(p[(#[trigger] d[i]) as int], pixels[i])
        &&& dissimilar_colors(p)
        &&& first_appearance_order(pixels, p, k)
    }),
    decreases k,
{
    if k > 0 {
        lemma_convert_prefix(pixels, k - 1);
        let (p, d) = convert_prefix(pixels, k - 1);
        let c = pixels[k - 1];
        lemma_exact_from(p, c, 0);
        lemma_similar_from(p, c, 0);
        let (p2, d2) = convert_prefix(pixels, k);
        assert(convert_prefix(pixels, k) == convert_step((p, d), c));
        assert(forall|i: int| 0 <= i < k - 1 ==> d2[i] == d[i]);
        if p2 == p {
            assert forall|j: int, jj: int, ii: int| #![trigger p[j], p[jj], pixels[ii]]
                0 <= j < jj < p.len() && 0 <= ii < k && pixels[ii] == p[jj] implies appears_before(pixels, p[j], ii) by {
                if ii == k - 1 {
                    let i2 = choose|i: int| 0 <= i < k - 1 && #[trigger] pixels[i] == p[jj];
                    assert(pixels[i2] == p[jj]);
                    let i3 = choose|i: int| 0 <= i < i2 && pixels[i] == p[j];
                    assert(0 <= i3 < ii && pixels[i3] == p[j]);
                }
            }
        }
        match exact_from(p, c, 0) {
            Some(e) => {
                assert(d2[k - 1] == e);
            },
            None => match similar_from(p, c, 0) {
                Some(s) => {
                    assert(d2[k - 1] == s);
                },
                None => if p.len() >= 255 {
                    lemma_closest_from(p, c, 0, 0, u32::MAX as int);
                } else {
                    assert forall|i: int, j: int| #![trigger p2[i], p2[j]]
                        0 <= i < p2.len() && 0 <= j < p2.len() && i != j implies !similar(p2[i], p2[j]) by {
                        if i == p.len() {
                            assert(!similar(p[j], c));
                        } else if j == p.len() {
                            assert(!similar(p[i], c));
                        }
                    }
                    assert forall|j: int, jj: int, ii: int| #![trigger p2[j], p2[jj], pixels[ii]]
                        0 <= j < jj < p2.len() && 0 <= ii < k && pixels[ii] == p2[jj] implies appears_before(pixels, p2[j], ii) by {
                        if jj == p.len() {
                            if ii < k - 1 {
                                assert(similar(p[d[ii] as int], pixels[ii]));
                                assert(!similar(p[d[ii] as int], c));
                            }
                            assert(p2[j] == p[j]);
                            let i3 = choose|i: int| 0 <= i < k - 1 && #[trigger] pixels[i] == p[j];
                            assert(0 <= i3 < ii && pixels[i3] == p2[j]);
                        } else {
                            assert(p2[jj] == p[jj] && p2[j] == p[j]);
                            if ii == k - 1 {
                                assert(p[jj] != c);
                            }
                        }
                    }
                    assert(p2 == p.push(c));
                    assert(d2[k - 1] == p.len());
                    assert forall|j: int| #![trigger p2[j]] 0 <= j < p2.len() implies exists|i: int| 0 <= i < k && #[trigger] pixels[i] == p2[j] by {
                        if j == p.len() {
                            assert(pixels[k - 1] == p2[j]);
                        } else {
                            let i = choose|i: int| 0 <= i < k - 1 && #[trigger] pixels[i] == p[j];
                            assert(pixels[i] == p2[j]);
                        }
                    }
                    assert forall|i: int, j: int| 0 <= i < k && 0 <= j < p2.len() && #[trigger] p2[j] == #[trigger] pixels[i] implies d2[i] == j by {
                        if i < k - 1 && j == p.len() {
                            // An earlier pixel of this colour names a similar entry, which `c`
                            // would have found.
                            assert(similar(p[d[i] as int], pixels[i]));
                            assert(!similar(p[d[i] as int], c));
                        }
                    }
                    assert forall|i: int| 0 <= i < k && p2.len() < 255 implies similar(p2[(#[trigger] d2[i]) as int], pixels[i]) by {
                        if i < k - 1 {
                            assert(similar(p[d[i] as int], pixels[i]));
                        }
                    }
                },
            },
        }
    }
}

impl MEIFConverter {
    #[verifier::type_invariant]
    spec fn well_formed(self) -> bool {
        self.pixels@.len() == self.width * self.height
    }

    /// The picture's width.
    pub closed spec fn image_width(&self) -> u32 {
        self.width
    }

    /// The picture's height.
    pub closed spec fn image_height(&self) -> u32 {
        self.height
    }

    /// The picture's pixels, row by row.
    pub closed spec fn image_pixels(&self) -> Seq<Rgb> {
        self.pixels@
    }

    /// A picture of `width` by `height` pixels, given row by row.
    pub fn new(width: u32, height: u32, pixels: Vec<Rgb>) -> (c: Self)
        requires
            pixels@.len() == width * height,
        ensures
            c.image_width() == width,
            c.image_height() == height,
            c.image_pixels() == pixels@,
    {
        MEIFConverter { width, height, pixels }
    }

    /// The position in `palette` that holds exactly `c`.
    fn find_exact(palette: &Vec<Rgb>, c: Rgb) -> (r: Option<usize>)
        ensures
            r matches Some(i) ==> exact_from(palette@, c, 0) == Some(i as int),
            r is None ==> exact_from(palette@, c, 0) is None,
    {
        let mut i: usize = 0;
        while i < palette.len()
            invariant
                i <= palette.len(),
                exact_from(palette@, c, 0) == exact_from(palette@, c, i as int),
            decreases palette.len() - i,
        {
            if palette[i] == c {
                return Some(i);
            }
            i += 1;
        }
        None
    }

    /// The first position in `palette` whose colour is similar to `c`.
    fn find_similar(palette: &Vec<Rgb>, c: Rgb) -> (r: Option<usize>)
        ensures
            r matches Some(i) ==> similar_from(palette@, c, 0) == Some(i as int),
            r is None ==> similar_from(palette@, c, 0) is None,
    {
        let mut i: usize = 0;
        while i < palette.len()
            invariant
                i <= palette.len(),
                similar_from(palette@, c, 0) == similar_from(palette@, c, i as int),
            decreases palette.len() - i,
        {
            let e = palette[i];
            if gap(c.r, e.r) < THRESHOLD && gap(c.g, e.g) < THRESHOLD && gap(c.b, e.b) < THRESHOLD {
                return Some(i);
            }
            i += 1;
        }
        None
    }

    /// The position of the first colour of `palette` nearest to `c`.
    fn find_closest(palette: &Vec<Rgb>, c: Rgb) -> (r: u8)
        requires
            palette@.len() <= 255,
        ensures
            r == closest(palette@, c),
    {
        let mut closest_index: u8 = 0;
        let mut closest_distance: u32 = u32::MAX;
        let mut i: usize = 0;
        while i < palette.len()
            invariant
                i <= palette.len() <= 255,
                closest_index < 255,
                closest(palette@, c) == closest_from(palette@, c, i as int, closest_index as int, closest_distance as int),
            decreases palette.len() - i,
        {
            let e = palette[i];
            let dr = gap(c.r, e.r) as u32;
            let dg = gap(c.g, e.g) as u32;
            let db = gap(c.b, e.b) as u32;
            assert(dr * dr <= 65025 && dg * dg <= 65025 && db * db <= 65025) by (nonlinear_arith)
                requires
                    dr <= 255,
                    dg <= 255,
                    db <= 255,
            ;
            let d = dr * dr + dg * dg + db * db;
            if d < closest_distance {
                closest_distance = d;
                closest_index = i as u8;
            }
            i += 1;
        }
        closest_index
    }

    /// Converts the picture, pixel by pixel in row order: see `convert_step`. Always `Ok`.
    pub fn convert(&self) -> (r: Result<MEIFImage, MEIFParserError>)
        ensures
            r matches Ok(img) && img@ == (ImageModel {
                width: self.image_width(),
                height: self.image_height(),
                indexes: convert_spec(self.image_pixels()).0,
                data: convert_spec(self.image_pixels()).1,
            }),
            self.image_pixels().len() == self.image_width() * self.image_height(),
            r matches Ok(img) && img.data@.len() == img.width * img.height,
    {
        proof {
            use_type_invariant(self);
            lemma_convert_well_formed(self.pixels@);
        }
        let mut meif_image = MEIFImage {
            width: self.width,
            height: self.height,
            indexes: Vec::new(),
            data: Vec::new(),
        };
        let mut index_count: u8 = 0;
        let mut k: usize = 0;
        while k < self.pixels.len()
            invariant
                k <= self.pixels@.len(),
                meif_image.width == self.width,
                meif_image.height == self.height,
                (meif_image.indexes@, meif_image.data@) == convert_prefix(self.pixels@, k as int),
                index_count as int == meif_image.indexes@.len(),
            decreases self.pixels.len() - k,
        {
            proof {
                lemma_convert_prefix(self.pixels@, k as int);
            }
            let pixel = self.pixels[k];
            match Self::find_exact(&meif_image.indexes, pixel) {
                Some(index) => {
                    proof { lemma_exact_from(meif_image.indexes@, pixel, 0); }
                    meif_image.data.push(index as u8);
                },
                None => match Self::find_similar(&meif_image.indexes, pixel) {
                    Some(index) => {
                        proof { lemma_similar_from(meif_image.indexes@, pixel, 0); }
                        meif_image.data.push(index as u8);
                    },
                    None => {
                        if index_count >= 255 {
                            // The palette is full: use the nearest colour instead
                            let closest_index = Self::find_closest(&meif_image.indexes, pixel);
                            meif_image.data.push(closest_index);
                        } else {
                            meif_image.indexes.push(pixel);
                            meif_image.data.push(index_count);
                            index_count += 1;
                        }
                    },
                },
            }
            k += 1;
        }
        Ok(meif_image)
    }
}

/// How far apart two channel values are.
fn gap(a: u8, b: u8) -> (r: u8)
    ensures
        r == channel_gap(a, b),
{
    if a >= b { a - b } else { b - a }
}

/// The conversion gives one index per pixel, each naming an entry of a palette of at most 255
/// different colours, each of them the colour of some pixel; a pixel whose colour is in the
/// palette names that colour; when the palette has fewer than 255 entries, every pixel names
/// a colour similar to its own; no two palette colours are similar; and the palette lists
/// colours in the order in which the pixels first show them.
pub proof fn lemma_convert_well_formed(pixels: Seq<Rgb>)
    ensures ({
        let (p, d) = convert_spec(pixels);
        &&& p.len() <= 255
        &&& d.len() == pixels.len()
        &&& distinct_colors(p)
        &&& forall|i: int| 0 <= i < d.len() ==> (#[trigger] d[i]) < p.len()
        &&& forall|i: int, j: int| 0 <= i < d.len() && 0 <= j < p.len() && #[trigger] p[j] == #[trigger] pixels[i] ==> d[i] == j
        &&& forall|j: int| #![trigger p[j]] 0 <= j < p.len() ==> exists|i: int| 0 <= i < pixels.len() && #[trigger] pixels[i] == p[j]
        &&& p.len() < 255 ==> forall|i: int| 0 <= i < d.len() ==> similar(p[(#[trigger] d[i]) as int], pixels[i])
        &&& dissimilar_colors(p)
        &&& first_appearance_order(pixels, p, pixels.len() as int)
    }),
{
    lemma_convert_prefix(pixels, pixels.len() as int);
}

/// The squared distance adds the squares of the three channel differences.
proof fn lemma_distance_squares(a: Rgb, b: Rgb)
    ensures
        distance(a, b) == (a.r - b.r) * (a.r - b.r) + (a.g - b.g) * (a.g - b.g) + (a.b - b.b) * (a.b - b.b),
{
    assert(channel_gap(a.r, b.r) * channel_gap(a.r, b.r) == (a.r - b.r) * (a.r - b.r)) by (nonlinear_arith)
        requires
            channel_gap(a.r, b.r) == a.r - b.r || channel_gap(a.r, b.r) == b.r - a.r,
    ;
    assert(channel_gap(a.g, b.g) * channel_gap(a.g, b.g) == (a.g - b.g) * (a.g - b.g)) by (nonlinear_arith)
        requires
            channel_gap(a.g, b.g) == a.g - b.g || channel_gap(a.g, b.g) == b.g - a.g,
    ;
    assert(channel_gap(a.b, b.b) * channel_gap(a.b, b.b) == (a.b - b.b) * (a.b - b.b)) by (nonlinear_arith)
        requires
            channel_gap(a.b, b.b) == a.b - b.b || channel_gap(a.b, b.b) == b.b - a.b,
    ;
}

/// The scan for the nearest colour ends at an entry no farther from `c` than any entry it
/// passed, nor than the best it started with.
proof fn lemma_closest_least(p: Seq<Rgb>, c: Rgb, i: int, best: int, best_d: int)
    requires
        0 <= i <= p.len(),
        (0 <= best < p.len() && best_d == distance(p[best], c)) || (i < p.len() && best_d > 3 * 255 * 255),
    ensures
        0 <= closest_from(p, c, i, best, best_d) < p.len(),
        distance(p[closest_from(p, c, i, best, best_d)], c) <= best_d,
        forall|j: int| i <= j < p.len() ==> distance(p[closest_from(p, c, i, best, best_d)], c) <= distance(#[trigger] p[j], c),
    decreases p.len() - i,
{
    if i < p.len() {
        let d = distance(p[i], c);
        assert(d <= 3 * 255 * 255) by (nonlinear_arith)
            requires
                d == distance(p[i], c),
                0 <= channel_gap(p[i].r, c.r) <= 255,
                0 <= channel_gap(p[i].g, c.g) <= 255,
                0 <= channel_gap(p[i].b, c.b) <= 255,
        ;
        if d < best_d {
            lemma_closest_least(p, c, i + 1, i, d);
        } else {
            lemma_closest_least(p, c, i + 1, best, best_d);
        }
    }
}

/// Later prefixes of the conversion keep the palette entries and the indices of earlier
/// ones, and once the palette is full it no longer changes.
proof fn lemma_convert_prefix_grows(pixels: Seq<Rgb>, k1: int, k2: int)
    requires
        0 <= k1 <= k2 <= pixels.len(),
    ensures ({
        let (p1, d1) = convert_prefix(pixels, k1);
        let (p2, d2) = convert_prefix(pixels, k2);
        &&& p1.len() <= p2.len()
        &&& forall|j: int| 0 <= j < p1.len() ==> #[trigger] p2[j] == p1[j]
        &&& forall|i: int| 0 <= i < k1 ==> #[trigger] d2[i] == d1[i]
        &&& p1.len() >= 255 ==> p2 == p1
    }),
    decreases k2 - k1,
{
    if k1 < k2 {
        lemma_convert_prefix_grows(pixels, k1, k2 - 1);
        lemma_convert_prefix(pixels, k2 - 1);
        let (p, d) = convert_prefix(pixels, k2 - 1);
        assert(convert_prefix(pixels, k2) == convert_step((p, d), pixels[k2 - 1]));
    }
}

proof fn lemma_convert_nearest_at(pixels: Seq<Rgb>, i: int)
    requires
        0 <= i < pixels.len(),
        forall|j: int| #![trigger convert_spec(pixels).0[j]] 0 <= j < convert_spec(pixels).0.len() ==> !(
            -20 < convert_spec(pixels).0[j].r - pixels[i].r < 20
            && -20 < convert_spec(pixels).0[j].g - pixels[i].g < 20
            && -20 < convert_spec(pixels).0[j].b - pixels[i].b < 20),
    ensures ({
        let (p, d) = convert_spec(pixels);
        let c = pixels[i];
        let e = p[d[i] as int];
        &&& p.len() == 255
        &&& forall|j: int| #![trigger p[j]] 0 <= j < p.len() ==> (e.r - c.r) * (e.r - c.r) + (e.g - c.g) * (e.g - c.g)
            + (e.b - c.b) * (e.b - c.b) <= (p[j].r - c.r) * (p[j].r - c.r) + (p[j].g - c.g) * (p[j].g - c.g)
            + (p[j].b - c.b) * (p[j].b - c.b)
    }),
{
    let n = pixels.len() as int;
    let (p, d) = convert_spec(pixels);
    let c = pixels[i];
    lemma_convert_prefix(pixels, i);
    lemma_convert_prefix(pixels, n);
    let (p0, d0) = convert_prefix(pixels, i);
    let (p1, d1) = convert_prefix(pixels, i + 1);
    assert(convert_prefix(pixels, i + 1) == convert_step((p0, d0), c));
    lemma_convert_prefix_grows(pixels, i, i + 1);
    lemma_convert_prefix_grows(pixels, i + 1, n);
    lemma_exact_from(p0, c, 0);
    lemma_similar_from(p0, c, 0);
    match exact_from(p0, c, 0) {
        Some(e) => {
            assert(p[e] == p0[e]);
        },
        None => match similar_from(p0, c, 0) {
            Some(s) => {
                assert(p[s] == p0[s]);
            },
            None => if p0.len() >= 255 {
                assert(p == p0);
                assert(d[i] == d1[i]);
                assert(d1[i] == closest(p0, c) as u8);
                lemma_closest_least(p0, c, 0, 0, u32::MAX as int);
                let k = closest(p0, c);
                assert(d[i] as int == k);
                assert forall|j: int| #![trigger p[j]] 0 <= j < p.len() implies (p[k].r - c.r) * (p[k].r - c.r) + (p[k].g - c.g) * (p[k].g - c.g)
                    + (p[k].b - c.b) * (p[k].b - c.b) <= (p[j].r - c.r) * (p[j].r - c.r) + (p[j].g - c.g) * (p[j].g - c.g)
                    + (p[j].b - c.b) * (p[j].b - c.b) by {
                    lemma_distance_squares(p[k], c);
                    lemma_distance_squares(p[j], c);
                }
            } else {
                assert(p1 == p0.push(c));
                assert(p[p0.len() as int] == p1[p0.len() as int]);
            },
        },
    }
}

/// Where a pixel's colour is neither in the palette nor within 20 of an entry in every
/// channel, the palette is full (255 colours) and the pixel names an entry whose squared
/// RGB distance to it (the squares of the red, green and blue differences added) is no
/// larger than that of any other entry.
pub proof fn lemma_convert_nearest(pixels: Seq<Rgb>)
    ensures ({
        let (p, d) = convert_spec(pixels);
        forall|i: int| #![trigger pixels[i]] 0 <= i < pixels.len() && (forall|j: int| #![trigger p[j]] 0 <= j < p.len() ==> !(
            -20 < p[j].r - pixels[i].r < 20 && -20 < p[j].g - pixels[i].g < 20 && -20 < p[j].b - pixels[i].b < 20))
            ==> {
            let c = pixels[i];
            let e = p[d[i] as int];
            &&& p.len() == 255
            &&& forall|j: int| #![trigger p[j]] 0 <= j < p.len() ==> (e.r - c.r) * (e.r - c.r) + (e.g - c.g) * (e.g - c.g)
                + (e.b - c.b) * (e.b - c.b) <= (p[j].r - c.r) * (p[j].r - c.r) + (p[j].g - c.g) * (p[j].g - c.g)
                + (p[j].b - c.b) * (p[j].b - c.b)
        }
    }),
{
    let (p, d) = convert_spec(pixels);
    assert forall|i: int| #![trigger pixels[i]] 0 <= i < pixels.len() && (forall|j: int| #![trigger p[j]] 0 <= j < p.len() ==> !(
        -20 < p[j].r - pixels[i].r < 20 && -20 < p[j].g - pixels[i].g < 20 && -20 < p[j].b - pixels[i].b < 20))
        implies {
        let c = pixels[i];
        let e = p[d[i] as int];
        &&& p.len() == 255
        &&& forall|j: int| #![trigger p[j]] 0 <= j < p.len() ==> (e.r - c.r) * (e.r - c.r) + (e.g - c.g) * (e.g - c.g)
            + (e.b - c.b) * (e.b - c.b) <= (p[j].r - c.r) * (p[j].r - c.r) + (p[j].g - c.g) * (p[j].g - c.g)
            + (p[j].b - c.b) * (p[j].b - c.b)
    } by {
        lemma_convert_nearest_at(pixels, i);
    }
}

} // verus!
