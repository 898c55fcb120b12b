//! What reading gives back of a file that `MEIFImage::to_bytes` wrote.
use vstd::prelude::*;
use crate::error::ParseFailure;
use crate::image::{
    pixel_colors, data_tag, dimension_high, dimension_low, dimension_of, dimn_tag, done_tag, indices_in_palette,
    indx_tag, lemma_dimension_roundtrip, magic_tag, max_dimension, palette_bytes, signature,
    spec_to_bytes, zero_pair, zero_quad, ImageModel, Rgb,
};
use crate::parser::{
    dimensions_spec, find_done, first_bad_index, header_spec, lemma_no_bad_index_all, lemma_expect_agrees, lemma_expect_match, expect,
    matches_at, palette_from, palette_spec, parse_dimensions_decodable, parse_spec, pixels_spec,
};
use crate::rle::{lemma_compress_roundtrip, spec_compress, spec_decompress};
use crate::converter::{convert_spec, lemma_convert_well_formed};

verus! {

/// `DATA` stands where colour `k` of the palette would start.
pub open spec fn data_tag_at_color(f: Seq<u8>, k: int) -> bool {
    matches_at(f, 24 + 3 * k, data_tag())
}

/// `DONE!` stands at position `q`.
pub open spec fn done_tag_at(f: Seq<u8>, q: int) -> bool {
    matches_at(f, q, done_tag())
}

/// An image that its file can stand for: sizes up to 8160, `width * height` pixels, and
/// every pixel naming a palette entry.
pub open spec fn image_encodable(img: ImageModel) -> bool {
    &&& img.width <= max_dimension()
    &&& img.height <= max_dimension()
    &&& img.data.len() == img.width * img.height
    &&& indices_in_palette(img)
}

/// In the file of `img`, no colour of the palette starts where `DATA` stands, and `DONE!`
/// does not start inside the coded pixels.
pub open spec fn markers_unambiguous(img: ImageModel) -> bool {
    let f = spec_to_bytes(img);
    let n = img.indexes.len() as int;
    let c = spec_compress(img.data).len() as int;
    &&& forall|k: int| 0 <= k < n ==> !#[trigger] data_tag_at_color(f, k)
    &&& forall|q: int| 28 + 3 * n <= q < 28 + 3 * n + c ==> !#[trigger] done_tag_at(f, q)
}

proof fn lemma_match_self(x: Seq<u8>)
    ensures
        matches_at(x, 0, x),
{
    assert(x.subrange(0, x.len() as int) =~= x);
}

proof fn lemma_match_left(a: Seq<u8>, b: Seq<u8>, p: int, pat: Seq<u8>)
    requires
        matches_at(a, p, pat),
    ensures
        matches_at(a + b, p, pat),
{
    assert((a + b).subrange(p, p + pat.len()) =~= a.subrange(p, p + pat.len()));
}

proof fn lemma_match_right(a: Seq<u8>, b: Seq<u8>, p: int, pat: Seq<u8>)
    requires
        matches_at(b, p, pat),
    ensures
        matches_at(a + b, a.len() + p, pat),
{
    assert((a + b).subrange(a.len() + p, a.len() + p + pat.len()) =~= b.subrange(p, p + pat.len()));
}

/// Appending `x` to `a` puts `x` at the end of `a`, and keeps what stood in `a`.
proof fn lemma_append(a: Seq<u8>, x: Seq<u8>)
    ensures
        matches_at(a + x, a.len() as int, x),
        forall|p: int, pat: Seq<u8>| #[trigger] matches_at(a, p, pat) ==> matches_at(a + x, p, pat),
{
    lemma_match_self(x);
    lemma_match_right(a, x, 0, x);
    assert forall|p: int, pat: Seq<u8>| #[trigger] matches_at(a, p, pat) implies matches_at(a + x, p, pat) by {
        lemma_match_left(a, x, p, pat);
    }
}

/// Where each part of the file of `img` stands.
proof fn lemma_layout(img: ImageModel)
    ensures ({
        let f = spec_to_bytes(img);
        let n = img.indexes.len() as int;
        let c = spec_compress(img.data).len() as int;
        &&& f.len() == 33 + 3 * n + c
        &&& matches_at(f, 0, magic_tag())
        &&& matches_at(f, 4, zero_quad())
        &&& matches_at(f, 8, signature())
        &&& matches_at(f, 10, zero_pair())
        &&& matches_at(f, 12, dimn_tag())
        &&& f[16] == dimension_high(img.width)
        &&& f[17] == dimension_low(img.width)
        &&& f[18] == dimension_high(img.height)
        &&& f[19] == dimension_low(img.height)
        &&& matches_at(f, 20, indx_tag())
        &&& matches_at(f, 24, palette_bytes(img.indexes))
        &&& matches_at(f, 24 + 3 * n, data_tag())
        &&& matches_at(f, 28 + 3 * n, spec_compress(img.data))
        &&& matches_at(f, 28 + 3 * n + c, done_tag())
    }),
{
    let dims = seq![dimension_high(img.width), dimension_low(img.width), dimension_high(img.height), dimension_low(img.height)];
    lemma_palette_bytes(img.indexes);
    let p1 = magic_tag();
    let p2 = p1 + zero_quad();
    let p3 = p2 + signature();
    let p4 = p3 + zero_pair();
    let p5 = p4 + dimn_tag();
    let p6 = p5 + dims;
    let p7 = p6 + indx_tag();
    let p8 = p7 + palette_bytes(img.indexes);
    let p9 = p8 + data_tag();
    let p10 = p9 + spec_compress(img.data);
    let f = p10 + done_tag();
    lemma_match_self(p1);
    lemma_append(p1, zero_quad());
    lemma_append(p2, signature());
    lemma_append(p3, zero_pair());
    lemma_append(p4, dimn_tag());
    lemma_append(p5, dims);
    lemma_append(p6, indx_tag());
    lemma_append(p7, palette_bytes(img.indexes));
    lemma_append(p8, data_tag());
    lemma_append(p9, spec_compress(img.data));
    lemma_append(p10, done_tag());
    assert(f == spec_to_bytes(img));
    assert(f.subrange(16, 20)[0] == f[16]);
    assert(f.subrange(16, 20)[1] == f[17]);
    assert(f.subrange(16, 20)[2] == f[18]);
    assert(f.subrange(16, 20)[3] == f[19]);
}

proof fn lemma_palette_bytes(p: Seq<Rgb>)
    ensures
        palette_bytes(p).len() == 3 * p.len(),
        forall|j: int| #![trigger p[j]] 0 <= j < p.len() ==> {
            &&& palette_bytes(p)[3 * j] == p[j].r
            &&& palette_bytes(p)[3 * j + 1] == p[j].g
            &&& palette_bytes(p)[3 * j + 2] == p[j].b
        },
    decreases p.len(),
{
    if p.len() > 0 {
        let q = p.drop_last();
        lemma_palette_bytes(q);
        assert forall|j: int| #![trigger p[j]] 0 <= j < p.len() implies {
            &&& palette_bytes(p)[3 * j] == p[j].r
            &&& palette_bytes(p)[3 * j + 1] == p[j].g
            &&& palette_bytes(p)[3 * j + 2] == p[j].b
        } by {
            if j < q.len() {
                assert(q[j] == p[j]);
            }
        }
    }
}

proof fn lemma_find_done(f: Seq<u8>, q: int, e: int)
    requires
        q <= e,
        done_tag_at(f, e),
        forall|r: int| q <= r < e ==> !#[trigger] done_tag_at(f, r),
    ensures
        find_done(f, q) == Some(e),
    decreases e - q,
{
    if q < e {
        assert(!done_tag_at(f, q));
        lemma_find_done(f, q + 1, e);
    }
}

proof fn lemma_no_bad_index(d: Seq<u8>, n: nat, i: int)
    requires
        0 <= i <= d.len(),
        forall|j: int| 0 <= j < d.len() ==> (#[trigger] d[j]) < n,
    ensures
        first_bad_index(d, n, i) is None,
    decreases d.len() - i,
{
    if i < d.len() {
        lemma_no_bad_index(d, n, i + 1);
    }
}

/// The colours from position `k` of the palette on are read back, up to `DATA`.
proof fn lemma_palette_from(f: Seq<u8>, p: Seq<Rgb>, k: int)
    requires
        0 <= k <= p.len(),
        matches_at(f, 24, palette_bytes(p)),
        matches_at(f, 24 + 3 * (p.len() as int), data_tag()),
        forall|j: int| 0 <= j < p.len() ==> !#[trigger] data_tag_at_color(f, j),
    ensures
        palette_from(f, 24 + 3 * k) == (Ok::<Seq<Rgb>, ParseFailure>(p.subrange(k, p.len() as int)), 24 + 3 * (p.len() as int)),
    decreases p.len() - k,
{
    lemma_palette_bytes(p);
    if k == p.len() {
        assert(p.subrange(k, p.len() as int) =~= Seq::<Rgb>::empty());
    } else {
        assert(!data_tag_at_color(f, k));
        lemma_palette_from(f, p, k + 1);
        let pb = palette_bytes(p);
        assert(f.subrange(24, 24 + pb.len() as int)[3 * k] == f[24 + 3 * k]);
        assert(f.subrange(24, 24 + pb.len() as int)[3 * k + 1] == f[24 + 3 * k + 1]);
        assert(f.subrange(24, 24 + pb.len() as int)[3 * k + 2] == f[24 + 3 * k + 2]);
        let c = Rgb { r: f[24 + 3 * k], g: f[24 + 3 * k + 1], b: f[24 + 3 * k + 2] };
        assert(c == p[k]);
        assert(seq![c] + p.subrange(k + 1, p.len() as int) =~= p.subrange(k, p.len() as int));
    }
}

/// Reading the file that `to_bytes` writes for an image gives the image back, provided its
/// sizes fit in the DIMN bytes, its pixels are `width * height` indices into the palette,
/// and neither the palette nor the coded pixels put a section marker where the reader
/// looks for one.
pub proof fn lemma_parse_to_bytes(img: ImageModel)
    requires
        image_encodable(img),
        markers_unambiguous(img),
    ensures
        parse_dimensions_decodable(spec_to_bytes(img), 0),
        parse_spec(spec_to_bytes(img), 0).0 == Ok::<ImageModel, ParseFailure>(img),
{
    let f = spec_to_bytes(img);
    let m = magic_tag();
    let z4 = zero_quad();
    let sg = signature();
    let z2 = zero_pair();
    let dn = dimn_tag();
    let ix = indx_tag();
    let dt = data_tag();
    let cp = spec_compress(img.data);
    let n = img.indexes.len() as int;
    lemma_palette_bytes(img.indexes);
    lemma_layout(img);

    // Header.
    lemma_expect_match(f, 0, m);
    lemma_expect_match(f, 4, z4);
    lemma_expect_match(f, 8, sg);
    lemma_expect_match(f, 10, z2);
    assert(header_spec(f, 0) == (Ok::<(), ParseFailure>(()), 12int));

    // Dimensions.
    lemma_expect_match(f, 12, dn);
    lemma_dimension_roundtrip(img.width);
    lemma_dimension_roundtrip(img.height);
    assert(parse_dimensions_decodable(f, 0));
    assert(dimensions_spec(f, 12) == (Ok::<(u32, u32), ParseFailure>((img.width, img.height)), 20int));

    // Palette.
    lemma_expect_match(f, 20, ix);
    assert(matches_at(f, 24 + 3 * n, data_tag()));
    assert forall|j: int| 0 <= j < n implies !#[trigger] data_tag_at_color(f, j) by {
        assert(!data_tag_at_color(spec_to_bytes(img), j));
    }
    lemma_palette_from(f, img.indexes, 0);
    assert(img.indexes.subrange(0, n) =~= img.indexes);
    assert(palette_spec(f, 20) == (Ok::<Seq<Rgb>, ParseFailure>(img.indexes), 24 + 3 * n));

    // Pixels.
    lemma_expect_match(f, 24 + 3 * n, dt);
    let e = 28 + 3 * n + cp.len();
    assert(done_tag_at(f, e));
    assert forall|r: int| 28 + 3 * n <= r < e implies !#[trigger] done_tag_at(f, r) by {
        assert(!done_tag_at(spec_to_bytes(img), r));
    }
    lemma_find_done(f, 28 + 3 * n, e);
    assert(f.subrange(28 + 3 * n, e) == cp);
    lemma_compress_roundtrip(img.data);
    assert(spec_decompress(f.subrange(28 + 3 * n, e)) == Ok::<Seq<u8>, ParseFailure>(img.data));
    lemma_no_bad_index(img.data, n as nat, 0);
    assert(pixels_spec(f, 24 + 3 * n, img.width, img.height, n as nat).0 == Ok::<Seq<u8>, ParseFailure>(img.data));
}

/// A converted picture of at most 8160 by 8160 pixels is an image its file can stand for.
pub proof fn lemma_convert_encodable(width: u32, height: u32, pixels: Seq<Rgb>)
    requires
        width <= max_dimension(),
        height <= max_dimension(),
        pixels.len() == width * height,
    ensures
        image_encodable(
            ImageModel {
                width,
                height,
                indexes: convert_spec(pixels).0,
                data: convert_spec(pixels).1,
            },
        ),
{
    lemma_convert_well_formed(pixels);
}

/// The colours that a palette step reads are the bytes from `q` on, three to a colour.
proof fn lemma_palette_from_bytes(buf: Seq<u8>, q: int)
    requires
        palette_from(buf, q).0 is Ok,
    ensures
        forall|k: int| #![trigger palette_from(buf, q).0->Ok_0[k]]
            0 <= k < palette_from(buf, q).0->Ok_0.len() ==> palette_from(buf, q).0->Ok_0[k] == (Rgb {
                r: buf[q + 3 * k],
                g: buf[q + 3 * k + 1],
                b: buf[q + 3 * k + 2],
            }),
        palette_from(buf, q).1 == q + 3 * palette_from(buf, q).0->Ok_0.len(),
        matches_at(buf, palette_from(buf, q).1, data_tag()),
    decreases buf.len() - q,
{
    if !matches_at(buf, q, data_tag()) && q + 3 <= buf.len() {
        lemma_palette_from_bytes(buf, q + 3);
        let cs = palette_from(buf, q).0->Ok_0;
        let rest = palette_from(buf, q + 3).0->Ok_0;
        assert forall|k: int| #![trigger cs[k]] 0 < k < cs.len() implies cs[k] == rest[k - 1] by {}
        assert forall|k: int| #![trigger cs[k]] 0 < k < cs.len() implies cs[k] == Rgb {
            r: buf[q + 3 * k],
            g: buf[q + 3 * k + 1],
            b: buf[q + 3 * k + 2],
        } by {
            assert(rest[k - 1] == Rgb {
                r: buf[q + 3 + 3 * (k - 1)],
                g: buf[q + 3 + 3 * (k - 1) + 1],
                b: buf[q + 3 + 3 * (k - 1) + 2],
            });
        }
    }
}

/// In an image read from `buf` at `p`, every pixel names a palette entry, and the three
/// bytes that `to_rgb_bytes` gives for pixel `i` are the three INDX bytes of the colour it
/// names: those at `p + 24 + 3 * d`, where `d` is its index.
pub proof fn lemma_rgb_reproduces_indx(buf: Seq<u8>, p: int)
    requires
        0 <= p,
        parse_spec(buf, p).0 is Ok,
    ensures ({
        let img = parse_spec(buf, p).0->Ok_0;
        let rgb = palette_bytes(pixel_colors(img));
        &&& indices_in_palette(img)
        &&& rgb.len() == 3 * img.data.len()
        &&& forall|i: int| #![trigger img.data[i]] 0 <= i < img.data.len() ==> rgb.subrange(3 * i, 3 * i + 3)
            == buf.subrange(p + 24 + 3 * img.data[i], p + 27 + 3 * img.data[i])
    }),
{
    let img = parse_spec(buf, p).0->Ok_0;
    let p1 = header_spec(buf, p).1;
    lemma_expect_agrees(buf, p, magic_tag());
    lemma_expect_agrees(buf, p + 4, zero_quad());
    lemma_expect_agrees(buf, p + 8, signature());
    lemma_expect_agrees(buf, p + 10, zero_pair());
    assert(p1 == p + 12);
    lemma_expect_agrees(buf, p + 12, dimn_tag());
    let p2 = dimensions_spec(buf, p1).1;
    assert(p2 == p + 20);
    lemma_expect_agrees(buf, p + 20, indx_tag());
    let q = p + 24;
    assert(palette_spec(buf, p2) == palette_from(buf, q));
    lemma_palette_from_bytes(buf, q);
    let p3 = palette_spec(buf, p2).1;
    let q4 = expect(buf, p3, data_tag()).1;
    let e = find_done(buf, q4)->Some_0;
    let d = spec_decompress(buf.subrange(q4, e))->Ok_0;
    assert(img.data == d);
    assert(img.indexes == palette_from(buf, q).0->Ok_0);
    lemma_no_bad_index_all(d, img.indexes.len(), 0);
    let colors = pixel_colors(img);
    let rgb = palette_bytes(colors);
    lemma_palette_bytes(colors);
    assert forall|i: int| #![trigger img.data[i]] 0 <= i < img.data.len() implies rgb.subrange(3 * i, 3 * i + 3)
        == buf.subrange(p + 24 + 3 * img.data[i], p + 27 + 3 * img.data[i]) by {
        let k = img.data[i] as int;
        assert(colors[i] == img.indexes[k]);
        assert(rgb[3 * i] == buf[q + 3 * k]);
        assert(rgb[3 * i + 1] == buf[q + 3 * k + 1]);
        assert(rgb[3 * i + 2] == buf[q + 3 * k + 2]);
        assert(rgb.subrange(3 * i, 3 * i + 3) =~= buf.subrange(q + 3 * k, q + 3 * k + 3));
    }
}

/// An image read from `buf` at `p` has the sizes that its DIMN bytes give, `32 * b0 - b1`
/// for each of the two pairs, and exactly `width * height` pixels: any other number of
/// decoded pixels is an error.
pub proof fn lemma_parse_reads_sizes(buf: Seq<u8>, p: int)
    requires
        0 <= p,
        parse_dimensions_decodable(buf, p),
        parse_spec(buf, p).0 is Ok,
    ensures ({
        let img = parse_spec(buf, p).0->Ok_0;
        &&& p + 20 <= buf.len()
        &&& img.width == 32 * buf[p + 16] - buf[p + 17]
        &&& img.height == 32 * buf[p + 18] - buf[p + 19]
        &&& img.data.len() == img.width * img.height
    }),
{
    lemma_expect_agrees(buf, p, magic_tag());
    lemma_expect_agrees(buf, p + 4, zero_quad());
    lemma_expect_agrees(buf, p + 8, signature());
    lemma_expect_agrees(buf, p + 10, zero_pair());
    assert(header_spec(buf, p).1 == p + 12);
    lemma_expect_agrees(buf, p + 12, dimn_tag());
}

} // verus!
