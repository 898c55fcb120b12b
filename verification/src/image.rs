//! The decoded image and its MEIF byte layout.
use vstd::prelude::*;
use vstd::string::*;
use crate::rle::{compress, spec_compress};
use crate::text::{decimal, push_decimal};

verus! {

/// A palette colour: red, green and blue, each 0 to 255.
#[derive(Clone, Copy, PartialEq, Eq, Structural, Debug)]
pub struct Rgb {
    pub r: u8,
    pub g: u8,
    pub b: u8,
}

/// An indexed-colour image: `data` holds, row by row, one palette index per pixel.
#[derive(PartialEq)]
pub struct MEIFImage {
    pub width: u32,
    pub height: u32,
    pub indexes: Vec<Rgb>,
    pub data: Vec<u8>,
}

/// What an image holds.
pub ghost struct ImageModel {
    pub width: u32,
    pub height: u32,
    pub indexes: Seq<Rgb>,
    pub data: Seq<u8>,
}

impl View for MEIFImage {
    type V = ImageModel;

    open spec fn view(&self) -> ImageModel {
        ImageModel { width: self.width, height: self.height, indexes: self.indexes@, data: self.data@ }
    }
}

/// The bytes `M E I F`.
pub open spec fn magic_tag() -> Seq<u8> {
    seq![0x4du8, 0x45u8, 0x49u8, 0x46u8]
}

/// Four zero bytes.
pub open spec fn zero_quad() -> Seq<u8> {
    seq![0u8, 0u8, 0u8, 0u8]
}

/// The bytes `0x69 0x42`.
pub open spec fn signature() -> Seq<u8> {
    seq![0x69u8, 0x42u8]
}

/// Two zero bytes.
pub open spec fn zero_pair() -> Seq<u8> {
    seq![0u8, 0u8]
}

/// The bytes `D I M N`.
pub open spec fn dimn_tag() -> Seq<u8> {
    seq![0x44u8, 0x49u8, 0x4du8, 0x4eu8]
}

/// The bytes `I N D X`.
pub open spec fn indx_tag() -> Seq<u8> {
    seq![0x49u8, 0x4eu8, 0x44u8, 0x58u8]
}

/// The bytes `D A T A`.
pub open spec fn data_tag() -> Seq<u8> {
    seq![0x44u8, 0x41u8, 0x54u8, 0x41u8]
}

/// The bytes `D O N E !`.
pub open spec fn done_tag() -> Seq<u8> {
    seq![0x44u8, 0x4fu8, 0x4eu8, 0x45u8, 0x21u8]
}

/// The size that a pair of DIMN bytes gives: `32 * b0 - b1`.
pub open spec fn dimension_of(b0: u8, b1: u8) -> int {
    32 * b0 - b1
}

/// The second DIMN byte for a size: what takes it up to the next multiple of 32.
pub open spec fn dimension_low(v: u32) -> u8 {
    ((32 - v % 32) % 32) as u8
}

/// The first DIMN byte for a size: that multiple of 32, divided by 32, kept to its low eight
/// bits.
pub open spec fn dimension_high(v: u32) -> u8 {
    (((v + dimension_low(v)) / 32) % 256) as u8
}

/// The largest size that two DIMN bytes can stand for.
pub open spec fn max_dimension() -> int {
    8160
}

/// Reads a size from its two DIMN bytes.
pub fn decode_dimension(b0: u8, b1: u8) -> (v: u32)
    requires
        b1 <= 32 * b0,
    ensures
        v == dimension_of(b0, b1),
        v == 32 * b0 - b1,
{
    (b0 as u32 * 32) - (b1 as u32)
}

/// The two DIMN bytes for a size: the smallest `b1` below 32 for which `v + b1` is a
/// multiple of 32, and `b0 = (v + b1) / 32` kept to its low eight bits.
pub fn encode_dimension(v: u32) -> (r: (u8, u8))
    ensures
        r == (dimension_high(v), dimension_low(v)),
{
    let mut fb0: u8 = 0;
    let mut fb1: u8 = 0;
    let mut b1: u64 = 0;
    while b1 < 32
        invariant
            b1 <= 32,
            b1 <= dimension_low(v),
        decreases 32 - b1,
    {
        let b0 = (v as u64 + b1) / 32;
        if 32 * b0 >= b1 && 32 * b0 - b1 == v as u64 {
            fb0 = (b0 % 256) as u8;
            fb1 = b1 as u8;
            assert(b1 == dimension_low(v));
            return (fb0, fb1);
        }
        b1 += 1;
    }
    assert((v + dimension_low(v)) % 32 == 0);
    (fb0, fb1)
}

/// Sizes up to 8160 come back unchanged from their DIMN bytes.
pub proof fn lemma_dimension_roundtrip(v: u32)
    requires
        v <= max_dimension(),
    ensures
        dimension_low(v) <= 32 * dimension_high(v),
        dimension_of(dimension_high(v), dimension_low(v)) == v,
{
}

/// No pair of DIMN bytes stands for a size above 8160.
pub proof fn lemma_dimension_limit(b0: u8, b1: u8)
    ensures
        dimension_of(b0, b1) <= max_dimension(),
{
}

/// The INDX bytes of a palette: red, green and blue of each colour in turn.
pub open spec fn palette_bytes(p: Seq<Rgb>) -> Seq<u8>
    decreases p.len(),
{
    if p.len() == 0 {
        seq![]
    } else {
        palette_bytes(p.drop_last()) + seq![p.last().r, p.last().g, p.last().b]
    }
}

/// The colours of the pixels, in order.
pub open spec fn pixel_colors(img: ImageModel) -> Seq<Rgb> {
    img.data.map_values(|d: u8| img.indexes[d as int])
}

/// Every pixel names an entry of the palette.
pub open spec fn indices_in_palette(img: ImageModel) -> bool {
    forall|i: int| 0 <= i < img.data.len() ==> (#[trigger] img.data[i]) < img.indexes.len()
}

/// The MEIF file of an image: the header, DIMN with the two sizes, INDX with the palette,
/// DATA with the coded pixels, and `DONE!`.
pub open spec fn spec_to_bytes(img: ImageModel) -> Seq<u8> {
    magic_tag() + zero_quad() + signature() + zero_pair()
        + dimn_tag()
        + seq![dimension_high(img.width), dimension_low(img.width), dimension_high(img.height), dimension_low(img.height)]
        + indx_tag() + palette_bytes(img.indexes)
        + data_tag() + spec_compress(img.data)
        + done_tag()
}

/// Appends `src` to `out`.
pub(crate) fn push_all(out: &mut Vec<u8>, src: &[u8])
    ensures
        final(out)@ == old(out)@ + src@,
{
    let mut i: usize = 0;
    while i < src.len()
        invariant
            i <= src.len(),
            out@ == old(out)@ + src@.subrange(0, i as int),
        decreases src.len() - i,
    {
        out.push(src[i]);
        i += 1;
        assert(out@ =~= old(out)@ + src@.subrange(0, i as int));
    }
    assert(src@.subrange(0, src@.len() as int) =~= src@);
}

/// Appends the palette's bytes to `out`.
fn push_palette(out: &mut Vec<u8>, palette: &Vec<Rgb>)
    ensures
        final(out)@ == old(out)@ + palette_bytes(palette@),
{
    let mut k: usize = 0;
    assert(palette@.subrange(0, 0) =~= Seq::<Rgb>::empty());
    assert(old(out)@ + Seq::<u8>::empty() =~= old(out)@);
    while k < palette.len()
        invariant
            k <= palette.len(),
            out@ == old(out)@ + palette_bytes(palette@.subrange(0, k as int)),
        decreases palette.len() - k,
    {
        let color = palette[k];
        out.push(color.r);
        out.push(color.g);
        out.push(color.b);
        k += 1;
        let ghost prefix = palette@.subrange(0, k as int);
        assert(prefix.drop_last() =~= palette@.subrange(0, k - 1));
        assert(prefix.last() == color);
        assert(out@ =~= old(out)@ + palette_bytes(prefix));
    }
    assert(palette@.subrange(0, palette@.len() as int) =~= palette@);
}

impl MEIFImage {
    /// The text the image shows when debug-printed: its sizes and the number of palette
    /// colours.
    pub fn debug_text(&self) -> (s: String)
        ensures
            s@ == "MEIFImage { width: "@ + decimal(self.width as nat) + ", height: "@ + decimal(
                self.height as nat,
            ) + ", indexes: "@ + decimal(self.indexes@.len()) + " }"@,
    {
        let mut s = String::from_str("MEIFImage { width: ");
        push_decimal(&mut s, self.width as u64);
        s.append(", height: ");
        push_decimal(&mut s, self.height as u64);
        s.append(", indexes: ");
        push_decimal(&mut s, self.indexes.len() as u64);
        s.append(" }");
        s
    }

    /// The MEIF file of this image.
    pub fn to_bytes(&self) -> (bytes: Vec<u8>)
        ensures
            bytes@ == spec_to_bytes(self@),
    {
        let mut bytes: Vec<u8> = Vec::new();

        // MEIF header
        let magic: [u8; 4] = [0x4d, 0x45, 0x49, 0x46];
        push_all(&mut bytes, &magic);
        let zeros4: [u8; 4] = [0x00; 4];
        push_all(&mut bytes, &zeros4);
        let sig: [u8; 2] = [0x69, 0x42];
        push_all(&mut bytes, &sig);
        let zeros2: [u8; 2] = [0x00; 2];
        push_all(&mut bytes, &zeros2);

        // DIMN section
        let dimn: [u8; 4] = [0x44, 0x49, 0x4d, 0x4e];
        push_all(&mut bytes, &dimn);
        let (fb00, fb01) = encode_dimension(self.width);
        let (fb10, fb11) = encode_dimension(self.height);
        bytes.push(fb00);
        bytes.push(fb01);
        bytes.push(fb10);
        bytes.push(fb11);

        // INDX section
        let indx: [u8; 4] = [0x49, 0x4e, 0x44, 0x58];
        push_all(&mut bytes, &indx);
        push_palette(&mut bytes, &self.indexes);

        // DATA section with proper RLE
        let data_mark: [u8; 4] = [0x44, 0x41, 0x54, 0x41];
        push_all(&mut bytes, &data_mark);
        let coded = match compress(&self.data) {
            Ok(coded) => coded,
            Err(_) => Vec::new(),
        };
        push_all(&mut bytes, &coded);

        // DONE! section
        let done: [u8; 5] = [0x44, 0x4f, 0x4e, 0x45, 0x21];
        push_all(&mut bytes, &done);

        assert(magic@ == magic_tag());
        assert(zeros4@ == zero_quad());
        assert(sig@ == signature());
        assert(zeros2@ == zero_pair());
        assert(dimn@ == dimn_tag());
        assert(indx@ == indx_tag());
        assert(data_mark@ == data_tag());
        assert(done@ == done_tag());
        assert(bytes@ =~= spec_to_bytes(self@));
        bytes
    }

    /// Three bytes (red, green, blue) for each pixel, in order.
    pub fn to_rgb_bytes(&self) -> (bytes: Vec<u8>)
        requires
            indices_in_palette(self@),
        ensures
            bytes@ == palette_bytes(pixel_colors(self@)),
    {
        let mut bytes: Vec<u8> = Vec::new();
        let ghost colors = pixel_colors(self@);
        assert(colors.subrange(0, 0) =~= Seq::<Rgb>::empty());
        for i in 0..self.data.len()
            invariant
                colors == pixel_colors(self@),
                indices_in_palette(self@),
                bytes@ == palette_bytes(colors.subrange(0, i as int)),
        {
            let idx = self.data[i] as usize;
            assert(self.data@[i as int] < self.indexes@.len());
            let color = self.indexes[idx];
            bytes.push(color.r);
            bytes.push(color.g);
            bytes.push(color.b);
            let ghost prefix = colors.subrange(0, i + 1);
            assert(prefix.drop_last() =~= colors.subrange(0, i as int));
            assert(prefix.last() == color);
            assert(bytes@ =~= palette_bytes(prefix));
        }
        assert(colors.subrange(0, colors.len() as int) =~= colors);
        bytes
    }
}

} // verus!
