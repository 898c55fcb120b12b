//! Reading a MEIF file from a byte buffer.
//!
//! The parser keeps a cursor into its buffer. Each reading step is described by a spec
//! function from the buffer and the cursor to the step's outcome and the cursor after it.
use vstd::prelude::*;
use vstd::string::*;
use crate::error::{reports, MEIFParserError, ParseFailure};
use crate::image::{
    indices_in_palette, data_tag, dimension_of, dimn_tag, done_tag, indx_tag, magic_tag, signature, zero_pair,
    zero_quad, decode_dimension, ImageModel, MEIFImage, Rgb,
};
use crate::rle::{decompress, spec_decompress};
use crate::text::push_decimal;

verus! {

/// `pat` stands in `buf` from position `p` on.
pub open spec fn matches_at(buf: Seq<u8>, p: int, pat: Seq<u8>) -> bool {
    &&& 0 <= p
    &&& p + pat.len() <= buf.len()
    &&& buf.subrange(p, p + pat.len()) == pat
}

/// The first `j >= k` at which `buf[p + j]` differs from `pat[j]`, or the length of `pat`.
pub open spec fn mismatch(buf: Seq<u8>, p: int, pat: Seq<u8>, k: int) -> int
    decreases pat.len() - k,
{
    if k >= pat.len() {
        pat.len() as int
    } else if buf[p + k] != pat[k] {
        k
    } else {
        mismatch(buf, p, pat, k + 1)
    }
}

/// Consuming `pat` at `p`: whether it is there, and where the cursor stops. Too few bytes
/// leave the cursor where it is; otherwise bytes are taken up to and including the first
/// one that differs.
pub open spec fn expect(buf: Seq<u8>, p: int, pat: Seq<u8>) -> (bool, int) {
    if p + pat.len() > buf.len() {
        (false, p)
    } else {
        let m = mismatch(buf, p, pat, 0);
        if m == pat.len() {
            (true, p + pat.len())
        } else {
            (false, p + m + 1)
        }
    }
}

/// The header step: `MEIF`, four zero bytes, `0x69 0x42`, two zero bytes.
pub open spec fn header_spec(buf: Seq<u8>, p: int) -> (Result<(), ParseFailure>, int) {
    let (a, p1) = expect(buf, p, magic_tag());
    if !a {
        (Err(ParseFailure::InvalidHeader), p1)
    } else {
        let (b, p2) = expect(buf, p1, zero_quad());
        if !b {
            (Err(ParseFailure::MissingZeroQuad), p2)
        } else {
            let (c, p3) = expect(buf, p2, signature());
            if !c {
                (Err(ParseFailure::MissingSignature), p3)
            } else {
                let (d, p4) = expect(buf, p3, zero_pair());
                if !d {
                    (Err(ParseFailure::MissingZeroPair), p4)
                } else {
                    (Ok(()), p4)
                }
            }
        }
    }
}

/// The DIMN step: the tag, then four bytes that give width and height.
pub open spec fn dimensions_spec(buf: Seq<u8>, p: int) -> (Result<(u32, u32), ParseFailure>, int) {
    let (a, q) = expect(buf, p, dimn_tag());
    if !a {
        (Err(ParseFailure::MissingDimn), q)
    } else if q + 4 > buf.len() {
        (Err(ParseFailure::BufferOverflow), buf.len() as int)
    } else {
        (
            Ok(
                (
                    dimension_of(buf[q], buf[q + 1]) as u32,
                    dimension_of(buf[q + 2], buf[q + 3]) as u32,
                ),
            ),
            q + 4,
        )
    }
}

/// The DIMN bytes at `p`, if the step gets to them, stand for sizes that are not negative.
pub open spec fn dimensions_decodable(buf: Seq<u8>, p: int) -> bool {
    let (a, q) = expect(buf, p, dimn_tag());
    a && q + 4 <= buf.len() ==> buf[q + 1] <= 32 * buf[q] && buf[q + 3] <= 32 * buf[q + 2]
}

/// Colours put in front of what a palette step gave.
pub open spec fn prepend_colors(x: Seq<Rgb>, s: (Result<Seq<Rgb>, ParseFailure>, int)) -> (
    Result<Seq<Rgb>, ParseFailure>,
    int,
) {
    match s.0 {
        Ok(rest) => (Ok(x + rest), s.1),
        Err(f) => (Err(f), s.1),
    }
}

/// Colours from `q` on, three bytes each, until `DATA` stands at a colour boundary.
pub open spec fn palette_from(buf: Seq<u8>, q: int) -> (Result<Seq<Rgb>, ParseFailure>, int)
    decreases buf.len() - q,
{
    if matches_at(buf, q, data_tag()) {
        (Ok(seq![]), q)
    } else if q + 3 > buf.len() {
        (Err(ParseFailure::BufferOverflow), if q <= buf.len() { buf.len() as int } else { q })
    } else {
        prepend_colors(
            seq![Rgb { r: buf[q], g: buf[q + 1], b: buf[q + 2] }],
            palette_from(buf, q + 3),
        )
    }
}

/// The INDX step: the tag, then the palette.
pub open spec fn palette_spec(buf: Seq<u8>, p: int) -> (Result<Seq<Rgb>, ParseFailure>, int) {
    let (a, q) = expect(buf, p, indx_tag());
    if !a {
        (Err(ParseFailure::MissingIndx), q)
    } else {
        palette_from(buf, q)
    }
}

/// The first position at or after `q` where `DONE!` stands.
pub open spec fn find_done(buf: Seq<u8>, q: int) -> Option<int>
    decreases buf.len() - q,
{
    if q >= buf.len() {
        None
    } else if matches_at(buf, q, done_tag()) {
        Some(q)
    } else {
        find_done(buf, q + 1)
    }
}

/// The first position at or after `i` whose pixel names no palette entry.
pub open spec fn first_bad_index(d: Seq<u8>, n: nat, i: int) -> Option<int>
    decreases d.len() - i,
{
    if i < 0 || i >= d.len() {
        None
    } else if d[i] >= n {
        Some(i)
    } else {
        first_bad_index(d, n, i + 1)
    }
}

/// Where no pixel from `i` on is out of range, every pixel from `i` on names an entry.
pub(crate) proof fn lemma_no_bad_index_all(d: Seq<u8>, n: nat, i: int)
    requires
        0 <= i,
        first_bad_index(d, n, i) is None,
    ensures
        forall|j: int| i <= j < d.len() ==> (#[trigger] d[j]) < n,
    decreases d.len() - i,
{
    if i < d.len() {
        lemma_no_bad_index_all(d, n, i + 1);
    }
}

/// The DATA step: the tag, the coded bytes up to `DONE!`, their decoding, and the checks
/// that the pixels number `width * height` and name palette entries.
pub open spec fn pixels_spec(buf: Seq<u8>, p: int, width: u32, height: u32, ncolors: nat) -> (
    Result<Seq<u8>, ParseFailure>,
    int,
) {
    let (a, q) = expect(buf, p, data_tag());
    if !a {
        (Err(ParseFailure::MissingData), q)
    } else {
        match find_done(buf, q) {
            None => (Err(ParseFailure::EndedAbruptly), if q <= buf.len() { buf.len() as int } else { q }),
            Some(e) => match spec_decompress(buf.subrange(q, e)) {
                Err(f) => (Err(f), e),
                Ok(d) => if d.len() != width * height {
                    (Err(ParseFailure::LengthMismatch { got: d.len(), expected: (width * height) as nat }), e)
                } else {
                    match first_bad_index(d, ncolors, 0) {
                        Some(i) => (Err(ParseFailure::InvalidIndex { value: d[i], position: i as nat }), e),
                        None => (Ok(d), e),
                    }
                },
            },
        }
    }
}

/// Reading a whole file from `p`: header, DIMN, INDX and DATA.
pub open spec fn parse_spec(buf: Seq<u8>, p: int) -> (Result<ImageModel, ParseFailure>, int) {
    let (h, p1) = header_spec(buf, p);
    match h {
        Err(f) => (Err(f), p1),
        Ok(_) => {
            let (dims, p2) = dimensions_spec(buf, p1);
            match dims {
                Err(f) => (Err(f), p2),
                Ok((w, ht)) => {
                    let (pal, p3) = palette_spec(buf, p2);
                    match pal {
                        Err(f) => (Err(f), p3),
                        Ok(colors) => {
                            let (px, p4) = pixels_spec(buf, p3, w, ht, colors.len());
                            match px {
                                Err(f) => (Err(f), p4),
                                Ok(d) => (Ok(ImageModel { width: w, height: ht, indexes: colors, data: d }), p4),
                            }
                        },
                    }
                },
            }
        },
    }
}

/// Reading from `p` gets past the header only to DIMN bytes that stand for sizes.
pub open spec fn parse_dimensions_decodable(buf: Seq<u8>, p: int) -> bool {
    header_spec(buf, p).0 is Ok ==> dimensions_decodable(buf, header_spec(buf, p).1)
}

/// An exec result agrees with a spec result: the same value by `view`, or the error for the
/// same failure.
pub open spec fn result_agrees<T: View>(r: Result<T, MEIFParserError>, s: Result<T::V, ParseFailure>) -> bool {
    match (r, s) {
        (Ok(v), Ok(x)) => v@ == x,
        (Err(e), Err(f)) => reports(e, f),
        _ => false,
    }
}

proof fn lemma_mismatch_full(buf: Seq<u8>, p: int, pat: Seq<u8>, k: int)
    requires
        0 <= k <= pat.len(),
        forall|j: int| k <= j < pat.len() ==> buf[p + j] == #[trigger] pat[j],
    ensures
        mismatch(buf, p, pat, k) == pat.len(),
    decreases pat.len() - k,
{
    if k < pat.len() {
        lemma_mismatch_full(buf, p, pat, k + 1);
    }
}

/// Where `pat` stands, consuming it succeeds and moves the cursor past it.
pub proof fn lemma_expect_match(buf: Seq<u8>, p: int, pat: Seq<u8>)
    requires
        matches_at(buf, p, pat),
    ensures
        expect(buf, p, pat) == (true, p + pat.len()),
{
    assert forall|j: int| 0 <= j < pat.len() implies buf[p + j] == #[trigger] pat[j] by {
        assert(buf.subrange(p, p + pat.len())[j] == buf[p + j]);
    }
    lemma_mismatch_full(buf, p, pat, 0);
}

proof fn lemma_mismatch_found(buf: Seq<u8>, p: int, pat: Seq<u8>, k: int, j: int)
    requires
        0 <= k <= j < pat.len(),
        buf[p + j] != pat[j],
    ensures
        mismatch(buf, p, pat, k) <= j,
    decreases j - k,
{
    if k < j && buf[p + k] == pat[k] {
        lemma_mismatch_found(buf, p, pat, k + 1, j);
    }
}

/// Consuming `pat` succeeds exactly where looking at it without consuming sees it, and then
/// moves the cursor just past it.
pub proof fn lemma_expect_agrees(buf: Seq<u8>, p: int, pat: Seq<u8>)
    requires
        0 <= p,
    ensures
        expect(buf, p, pat).0 == matches_at(buf, p, pat),
        expect(buf, p, pat).0 ==> expect(buf, p, pat).1 == p + pat.len(),
{
    if matches_at(buf, p, pat) {
        lemma_expect_match(buf, p, pat);
    } else if p + pat.len() <= buf.len() {
        assert(!(buf.subrange(p, p + pat.len()) =~= pat));
        let j = choose|j: int| 0 <= j < pat.len() && buf.subrange(p, p + pat.len())[j] != pat[j];
        assert(buf[p + j] != pat[j]);
        lemma_mismatch_found(buf, p, pat, 0, j);
    }
}

/// A reader of MEIF files over a byte buffer. The buffer never changes, and the read
/// position never passes its end.
pub struct MEIFParser {
    buffer: Vec<u8>,
    pointer: usize,
}

impl MEIFParser {
    /// The read position stays within the buffer.
    #[verifier::type_invariant]
    spec fn within_buffer(self) -> bool {
        self.pointer <= self.buffer.len()
    }

    /// The position of the next byte to read. Every parser keeps it within the buffer (its
    /// type invariant), so this is the read position itself; the bound written here lets
    /// that fact be stated of every value.
    pub closed spec fn cursor(&self) -> int {
        if self.pointer <= self.buffer.len() {
            self.pointer as int
        } else {
            self.buffer.len() as int
        }
    }

    /// The bytes being read.
    pub closed spec fn bytes(&self) -> Seq<u8> {
        self.buffer@
    }

    /// A parser at the start of `buffer`.
    pub fn new(buffer: Vec<u8>) -> (p: Self)
        ensures
            p.bytes() == buffer@,
            p.cursor() == 0,
    {
        MEIFParser { buffer, pointer: 0 }
    }

    /// The bytes being read.
    pub fn buffer(&self) -> (r: &Vec<u8>)
        ensures
            r@ == self.bytes(),
    {
        &self.buffer
    }

    /// The position of the next byte to read.
    pub fn position(&self) -> (r: usize)
        ensures
            r == self.cursor(),
    {
        proof {
            use_type_invariant(self);
        }
        self.pointer
    }

    /// The next byte, and the cursor moves past it; past the end of the buffer, the error
    /// `Buffer overflow` and the cursor stays.
    pub fn fetch(&mut self) -> (r: Result<u8, MEIFParserError>)
        ensures
            final(self).bytes() == old(self).bytes(),
            old(self).cursor() < old(self).bytes().len() ==> {
                &&& r matches Ok(b) && b == old(self).bytes()[old(self).cursor()]
                &&& final(self).cursor() == old(self).cursor() + 1
            },
            old(self).cursor() >= old(self).bytes().len() ==> {
                &&& r matches Err(e) && reports(e, ParseFailure::BufferOverflow)
                &&& final(self).cursor() == old(self).cursor()
            },
    {
        proof {
            use_type_invariant(&*self);
        }
        if self.pointer >= self.buffer.len() {
            return Err(MEIFParserError::new("Buffer overflow"));
        }
        let data = self.buffer[self.pointer];
        self.pointer += 1;
        Ok(data)
    }

    /// Consumes `bytes` if they come next: see `expect` for where the cursor stops.
    pub fn next_bytes(&mut self, bytes: &[u8]) -> (r: bool)
        ensures
            final(self).bytes() == old(self).bytes(),
            (r, final(self).cursor()) == expect(old(self).bytes(), old(self).cursor(), bytes@),
    {
        proof {
            use_type_invariant(&*self);
        }
        // Too few bytes left: nothing to match
        if self.pointer > self.buffer.len() || bytes.len() > self.buffer.len() - self.pointer {
            return false;
        }
        let ghost buf = self.buffer@;
        let ghost p = self.cursor();
        let mut matched = true;
        let mut i: usize = 0;
        while i < bytes.len()
            invariant_except_break
                self.buffer@ == buf,
                p + bytes@.len() <= buf.len(),
                i <= bytes.len(),
                self.cursor() == p + i,
                matched,
                mismatch(buf, p, bytes@, 0) == mismatch(buf, p, bytes@, i as int),
            ensures
                self.buffer@ == buf,
                (matched, self.cursor()) == expect(buf, p, bytes@),
            decreases bytes.len() - i,
        {
            match self.fetch() {
                Ok(b) => {
                    if b != bytes[i] {
                        matched = false;
                        break;
                    }
                },
                Err(_) => {
                    matched = false;
                    break;
                },
            }
            i += 1;
        }
        matched
    }

    /// Whether `bytes` come next; the cursor does not move.
    pub fn non_advancing_next_bytes(&self, bytes: &[u8]) -> (r: bool)
        ensures
            r == matches_at(self.bytes(), self.cursor(), bytes@),
    {
        proof {
            use_type_invariant(&*self);
        }
        // Too few bytes left: nothing to match
        if self.pointer > self.buffer.len() || bytes.len() > self.buffer.len() - self.pointer {
            return false;
        }
        let mut i: usize = 0;
        while i < bytes.len()
            invariant
                i <= bytes.len(),
                self.pointer + bytes.len() <= self.buffer.len(),
                forall|j: int| 0 <= j < i ==> self.buffer@[self.pointer + j] == bytes@[j],
            decreases bytes.len() - i,
        {
            if self.buffer[self.pointer + i] != bytes[i] {
                assert(self.buffer@.subrange(self.cursor(), self.cursor() + bytes@.len())[i as int] != bytes@[i as int]);
                return false;
            }
            i += 1;
        }
        assert(self.buffer@.subrange(self.cursor(), self.cursor() + bytes@.len()) =~= bytes@);
        true
    }

    /// Whether the DIMN bytes that `parse` would read stand for sizes (`b1 <= 32 * b0`), or
    /// `parse` stops before it reads them: the condition under which `parse` may be called.
    pub fn dimensions_in_range(&self) -> (r: bool)
        ensures
            r == parse_dimensions_decodable(self.bytes(), self.cursor()),
    {
        proof {
            use_type_invariant(self);
        }
        let buffer = self.buffer.clone();
        assert(buffer@ =~= self.buffer@);
        let mut probe = MEIFParser { buffer, pointer: self.pointer };
        if probe.parse_header().is_err() {
            return true;
        }
        let dimn: [u8; 4] = [0x44, 0x49, 0x4d, 0x4e];
        assert(dimn@ == dimn_tag());
        if !probe.next_bytes(&dimn) {
            return true;
        }
        proof {
            use_type_invariant(&probe);
        }
        if probe.pointer > probe.buffer.len() || probe.buffer.len() - probe.pointer < 4 {
            return true;
        }
        let p = probe.pointer;
        let b00 = probe.buffer[p] as u32;
        let b01 = probe.buffer[p + 1] as u32;
        let b10 = probe.buffer[p + 2] as u32;
        let b11 = probe.buffer[p + 3] as u32;
        b01 <= 32 * b00 && b11 <= 32 * b10
    }

    /// Reads the header: `MEIF`, four zero bytes, `0x69 0x42` and two zero bytes.
    pub fn parse_header(&mut self) -> (r: Result<(), MEIFParserError>)
        ensures
            final(self).bytes() == old(self).bytes(),
            final(self).cursor() == header_spec(old(self).bytes(), old(self).cursor()).1,
            match (r, header_spec(old(self).bytes(), old(self).cursor()).0) {
                (Ok(_), Ok(_)) => true,
                (Err(e), Err(f)) => reports(e, f),
                _ => false,
            },
    {
        let magic: [u8; 4] = [0x4d, 0x45, 0x49, 0x46];
        let zeros4: [u8; 4] = [0x00; 4];
        let sig: [u8; 2] = [0x69, 0x42];
        let zeros2: [u8; 2] = [0x00; 2];
        assert(magic@ == magic_tag());
        assert(zeros4@ == zero_quad());
        assert(sig@ == signature());
        assert(zeros2@ == zero_pair());
        if !self.next_bytes(&magic) {
            return Err(MEIFParserError::new("Invalid MEIF header"));
        }
        if !self.next_bytes(&zeros4) {
            return Err(MEIFParserError::new("Expected 4 0x00 bytes after MEIF header"));
        }
        if !self.next_bytes(&sig) {
            return Err(MEIFParserError::new("Expected \"\"\"nice + answer to life\"\"\" after 6 0x00 bytes"));
        }
        if !self.next_bytes(&zeros2) {
            return Err(MEIFParserError::new("Expected 2 0x00 bytes after \"\"\"nice + answer to life\"\"\""));
        }
        Ok(())
    }

    /// Reads the DIMN section: the tag, then width and height, each as `32 * b0 - b1`.
    pub fn parse_dimensions(&mut self) -> (r: Result<(u32, u32), MEIFParserError>)
        requires
            dimensions_decodable(old(self).bytes(), old(self).cursor()),
        ensures
            final(self).bytes() == old(self).bytes(),
            final(self).cursor() == dimensions_spec(old(self).bytes(), old(self).cursor()).1,
            match (r, dimensions_spec(old(self).bytes(), old(self).cursor()).0) {
                (Ok(v), Ok(w)) => v == w,
                (Err(e), Err(f)) => reports(e, f),
                _ => false,
            },
    {
        let dimn: [u8; 4] = [0x44, 0x49, 0x4d, 0x4e];
        assert(dimn@ == dimn_tag());
        if !self.next_bytes(&dimn) {
            return Err(MEIFParserError::new("Expected \"DIMN\" section"));
        }
        let b00 = match self.fetch() { Ok(b) => b, Err(e) => return Err(e) };
        let b01 = match self.fetch() { Ok(b) => b, Err(e) => return Err(e) };
        let b10 = match self.fetch() { Ok(b) => b, Err(e) => return Err(e) };
        let b11 = match self.fetch() { Ok(b) => b, Err(e) => return Err(e) };
        let width = decode_dimension(b00, b01);
        let height = decode_dimension(b10, b11);
        Ok((width, height))
    }

    /// Reads the INDX section: the tag, then colours of three bytes each until `DATA` comes
    /// next.
    pub fn parse_palette(&mut self) -> (r: Result<Vec<Rgb>, MEIFParserError>)
        ensures
            final(self).bytes() == old(self).bytes(),
            final(self).cursor() == palette_spec(old(self).bytes(), old(self).cursor()).1,
            result_agrees(r, palette_spec(old(self).bytes(), old(self).cursor()).0),
    {
        let indx: [u8; 4] = [0x49, 0x4e, 0x44, 0x58];
        assert(indx@ == indx_tag());
        if !self.next_bytes(&indx) {
            return Err(MEIFParserError::new("Expected \"INDX\" section"));
        }
        let ghost buf = self.buffer@;
        let ghost q0 = self.cursor();
        let data_mark: [u8; 4] = [0x44, 0x41, 0x54, 0x41];
        assert(data_mark@ == data_tag());
        let mut indexes: Vec<Rgb> = Vec::new();
        assert(prepend_colors(indexes@, palette_from(buf, q0)) == palette_from(buf, q0)) by {
            if let Ok(rest) = palette_from(buf, q0).0 {
                assert(Seq::<Rgb>::empty() + rest =~= rest);
            }
        }
        let mut failure: Option<MEIFParserError> = None;
        while !self.non_advancing_next_bytes(&data_mark)
            invariant_except_break
                self.buffer@ == buf,
                data_mark@ == data_tag(),
                failure is None,
                0 <= q0 <= self.cursor() <= buf.len(),
                palette_from(buf, q0) == prepend_colors(indexes@, palette_from(buf, self.cursor())),
            ensures
                self.buffer@ == buf,
                failure matches Some(e) ==> reports(e, ParseFailure::BufferOverflow)
                    && palette_from(buf, q0) == (Err::<Seq<Rgb>, ParseFailure>(ParseFailure::BufferOverflow), self.cursor()),
                failure is None ==> palette_from(buf, q0) == (Ok::<Seq<Rgb>, ParseFailure>(indexes@), self.cursor()),
            decreases buf.len() - self.cursor(),
        {
            let ghost q = self.cursor();
            let ghost before = indexes@;
            let r = match self.fetch() {
                Ok(b) => b,
                Err(e) => {
                    failure = Some(e);
                    break;
                },
            };
            let g = match self.fetch() {
                Ok(b) => b,
                Err(e) => {
                    failure = Some(e);
                    break;
                },
            };
            let b = match self.fetch() {
                Ok(b) => b,
                Err(e) => {
                    failure = Some(e);
                    break;
                },
            };
            indexes.push(Rgb { r, g, b });
            proof {
                let c = Rgb { r, g, b };
                assert(palette_from(buf, q) == prepend_colors(seq![c], palette_from(buf, q + 3)));
                if let Ok(rest) = palette_from(buf, q + 3).0 {
                    assert(before + (seq![c] + rest) =~= indexes@ + rest);
                }
            }
        }
        if let Some(e) = failure {
            return Err(e);
        }
        proof {
            assert(indexes@ + Seq::<Rgb>::empty() =~= indexes@);
        }
        Ok(indexes)
    }

    /// Reads the DATA section: the tag, the coded bytes up to `DONE!` (which is left unread),
    /// their decoding, and the checks that there are `width * height` pixels and that each
    /// names one of the `palette_len` colours.
    pub fn parse_pixels(&mut self, width: u32, height: u32, palette_len: usize) -> (r: Result<
        Vec<u8>,
        MEIFParserError,
    >)
        requires
            width * height <= u32::MAX,
        ensures
            final(self).bytes() == old(self).bytes(),
            final(self).cursor() == pixels_spec(
                old(self).bytes(),
                old(self).cursor(),
                width,
                height,
                palette_len as nat,
            ).1,
            result_agrees(
                r,
                pixels_spec(old(self).bytes(), old(self).cursor(), width, height, palette_len as nat).0,
            ),
            r matches Ok(d) ==> d@.len() == width * height,
            r matches Ok(d) ==> forall|i: int| 0 <= i < d@.len() ==> (#[trigger] d@[i]) < palette_len,
    {
        let data_mark: [u8; 4] = [0x44, 0x41, 0x54, 0x41];
        assert(data_mark@ == data_tag());
        if !self.next_bytes(&data_mark) {
            return Err(MEIFParserError::new("Expected \"DATA\" section"));
        }
        let ghost buf = self.buffer@;
        let ghost q0 = self.cursor();
        let done: [u8; 5] = [0x44, 0x4f, 0x4e, 0x45, 0x21];
        assert(done@ == done_tag());
        let mut compressed_data: Vec<u8> = Vec::new();
        let mut ended = false;
        loop
            invariant_except_break
                self.buffer@ == buf,
                done@ == done_tag(),
                !ended,
                0 <= q0 <= self.cursor() <= buf.len(),
                compressed_data@ == buf.subrange(q0, self.cursor()),
                find_done(buf, q0) == find_done(buf, self.cursor()),
            ensures
                self.buffer@ == buf,
                0 <= q0 <= self.cursor() <= buf.len(),
                ended ==> find_done(buf, q0) is None && self.cursor() == buf.len(),
                !ended ==> compressed_data@ == buf.subrange(q0, self.cursor()) && find_done(buf, q0) == Some(self.cursor()),
            decreases buf.len() - self.cursor(),
        {
            proof {
                use_type_invariant(&*self);
            }
            if self.pointer >= self.buffer.len() {
                ended = true;
                break;
            }
            if self.non_advancing_next_bytes(&done) {
                break;
            }
            match self.fetch() {
                Ok(b) => compressed_data.push(b),
                Err(_) => {},
            }
            assert(compressed_data@ =~= buf.subrange(q0, self.cursor()));
        }
        if ended {
            return Err(MEIFParserError::new("File ended abruptly"));
        }
        let data = match decompress(&compressed_data) {
            Ok(d) => d,
            Err(e) => return Err(e),
        };
        let expected: u32 = width * height;
        if data.len() != expected as usize {
            let mut message = String::from_str("Data length mismatch, got ");
            push_decimal(&mut message, data.len() as u64);
            message.append(" but expected ");
            push_decimal(&mut message, expected as u64);
            message.append(".");
            let e = MEIFParserError { message };
            assert(reports(e, ParseFailure::LengthMismatch { got: data@.len(), expected: (width * height) as nat }));
            return Err(e);
        }
        let mut bad: Option<usize> = None;
        let mut i: usize = 0;
        while i < data.len()
            invariant_except_break
                bad is None,
                i <= data.len(),
                first_bad_index(data@, palette_len as nat, 0) == first_bad_index(data@, palette_len as nat, i as int),
            ensures
                bad matches Some(k) ==> first_bad_index(data@, palette_len as nat, 0) == Some(k as int) && k < data.len(),
                bad is None ==> first_bad_index(data@, palette_len as nat, 0) is None,
            decreases data.len() - i,
        {
            if data[i] as usize >= palette_len {
                bad = Some(i);
                break;
            }
            i += 1;
        }
        if let Some(k) = bad {
            let mut message = String::from_str("Invalid index ");
            push_decimal(&mut message, data[k] as u64);
            message.append(" at position ");
            push_decimal(&mut message, k as u64);
            let e = MEIFParserError { message };
            assert(reports(e, ParseFailure::InvalidIndex { value: data@[k as int], position: k as nat }));
            return Err(e);
        }
        proof {
            lemma_no_bad_index_all(data@, palette_len as nat, 0);
        }
        Ok(data)
    }

    /// Reads a whole MEIF file from the cursor on.
    pub fn parse(&mut self) -> (r: Result<MEIFImage, MEIFParserError>)
        requires
            parse_dimensions_decodable(old(self).bytes(), old(self).cursor()),
        ensures
            final(self).bytes() == old(self).bytes(),
            final(self).cursor() == parse_spec(old(self).bytes(), old(self).cursor()).1,
            result_agrees(r, parse_spec(old(self).bytes(), old(self).cursor()).0),
            r matches Ok(img) ==> img.data@.len() == img.width * img.height,
            r matches Ok(img) ==> indices_in_palette(img@),
    {
        let mut meif_image = MEIFImage { width: 0, height: 0, indexes: Vec::new(), data: Vec::new() };
        match self.parse_header() {
            Ok(()) => {},
            Err(e) => return Err(e),
        }
        let (width, height) = match self.parse_dimensions() {
            Ok(dims) => dims,
            Err(e) => return Err(e),
        };
        meif_image.width = width;
        meif_image.height = height;
        assert(width <= 8160 && height <= 8160);
        assert(width * height <= u32::MAX) by (nonlinear_arith)
            requires
                width <= 8160,
                height <= 8160,
        ;
        meif_image.indexes = match self.parse_palette() {
            Ok(colors) => colors,
            Err(e) => return Err(e),
        };
        meif_image.data = match self.parse_pixels(width, height, meif_image.indexes.len()) {
            Ok(data) => data,
            Err(e) => return Err(e),
        };
        Ok(meif_image)
    }
}

/// The read position of every parser lies within its buffer.
pub proof fn lemma_cursor_in_buffer(parser: MEIFParser)
    ensures
        0 <= parser.cursor() <= parser.bytes().len(),
{
}

/// For every parser, looking at `pat` without consuming it gives the same answer as
/// consuming it, and a successful consumption moves the cursor just past `pat`.
pub proof fn lemma_lookahead_agrees(parser: MEIFParser, pat: Seq<u8>)
    ensures
        expect(parser.bytes(), parser.cursor(), pat).0 == matches_at(parser.bytes(), parser.cursor(), pat),
        expect(parser.bytes(), parser.cursor(), pat).0 ==> expect(parser.bytes(), parser.cursor(), pat).1
            == parser.cursor() + pat.len(),
{
    lemma_cursor_in_buffer(parser);
    lemma_expect_agrees(parser.bytes(), parser.cursor(), pat);
}

/// Consuming `a + b` succeeds exactly where consuming `a` and then `b` does, and the two
/// then leave the cursor at the same place.
pub proof fn lemma_next_bytes_concat(parser: MEIFParser, a: Seq<u8>, b: Seq<u8>)
    ensures ({
        let buf = parser.bytes();
        let p = parser.cursor();
        let (ra, pa) = expect(buf, p, a);
        &&& expect(buf, p, a + b).0 == (ra && expect(buf, pa, b).0)
        &&& ra && expect(buf, pa, b).0 ==> expect(buf, p, a + b).1 == expect(buf, pa, b).1
    }),
{
    let buf = parser.bytes();
    let p = parser.cursor();
    lemma_cursor_in_buffer(parser);
    lemma_expect_agrees(buf, p, a);
    lemma_expect_agrees(buf, p, a + b);
    let pa = expect(buf, p, a).1;
    if expect(buf, p, a).0 {
        lemma_expect_agrees(buf, pa, b);
        if matches_at(buf, pa, b) {
            assert(buf.subrange(p, p + (a + b).len()) =~= buf.subrange(p, p + a.len()) + buf.subrange(pa, pa + b.len()));
        } else if matches_at(buf, p, a + b) {
            assert(buf.subrange(pa, pa + b.len()) =~= buf.subrange(p, p + (a + b).len()).subrange(a.len() as int, (a + b).len() as int));
            assert((a + b).subrange(a.len() as int, (a + b).len() as int) =~= b);
        }
    } else if matches_at(buf, p, a + b) {
        assert(buf.subrange(p, p + a.len()) =~= buf.subrange(p, p + (a + b).len()).subrange(0, a.len() as int));
        assert((a + b).subrange(0, a.len() as int) =~= a);
    }
}

/// What stands in `buf` still stands there once bytes are appended.
proof fn lemma_match_extend(buf: Seq<u8>, extra: Seq<u8>, p: int, pat: Seq<u8>)
    requires
        matches_at(buf, p, pat),
    ensures
        matches_at(buf + extra, p, pat),
{
    assert((buf + extra).subrange(p, p + pat.len()) =~= buf.subrange(p, p + pat.len()));
}

proof fn lemma_expect_extend(buf: Seq<u8>, extra: Seq<u8>, p: int, pat: Seq<u8>)
    requires
        0 <= p,
        expect(buf, p, pat).0,
    ensures
        expect(buf + extra, p, pat) == expect(buf, p, pat),
{
    lemma_expect_agrees(buf, p, pat);
    lemma_match_extend(buf, extra, p, pat);
    lemma_expect_agrees(buf + extra, p, pat);
}

proof fn lemma_header_extend(buf: Seq<u8>, extra: Seq<u8>, p: int)
    requires
        0 <= p,
        header_spec(buf, p).0 is Ok,
    ensures
        header_spec(buf + extra, p) == header_spec(buf, p),
        p <= header_spec(buf, p).1,
{
    let p1 = expect(buf, p, magic_tag()).1;
    let p2 = expect(buf, p1, zero_quad()).1;
    let p3 = expect(buf, p2, signature()).1;
    lemma_expect_extend(buf, extra, p, magic_tag());
    lemma_expect_agrees(buf, p, magic_tag());
    lemma_expect_extend(buf, extra, p1, zero_quad());
    lemma_expect_agrees(buf, p1, zero_quad());
    lemma_expect_extend(buf, extra, p2, signature());
    lemma_expect_agrees(buf, p2, signature());
    lemma_expect_extend(buf, extra, p3, zero_pair());
    lemma_expect_agrees(buf, p3, zero_pair());
}

proof fn lemma_dimensions_extend(buf: Seq<u8>, extra: Seq<u8>, p: int)
    requires
        0 <= p,
        dimensions_spec(buf, p).0 is Ok,
    ensures
        dimensions_spec(buf + extra, p) == dimensions_spec(buf, p),
        dimensions_decodable(buf + extra, p) == dimensions_decodable(buf, p),
        p <= dimensions_spec(buf, p).1,
{
    lemma_expect_extend(buf, extra, p, dimn_tag());
    lemma_expect_agrees(buf, p, dimn_tag());
    let q = expect(buf, p, dimn_tag()).1;
    let buf2 = buf + extra;
    assert(buf2[q] == buf[q] && buf2[q + 1] == buf[q + 1] && buf2[q + 2] == buf[q + 2] && buf2[q + 3] == buf[q + 3]);
}

proof fn lemma_palette_from_extend(buf: Seq<u8>, extra: Seq<u8>, q: int)
    requires
        0 <= q,
        palette_from(buf, q).0 is Ok,
    ensures
        palette_from(buf + extra, q) == palette_from(buf, q),
        q <= palette_from(buf, q).1,
    decreases buf.len() - q,
{
    let buf2 = buf + extra;
    if matches_at(buf, q, data_tag()) {
        lemma_match_extend(buf, extra, q, data_tag());
    } else {
        lemma_palette_from_extend(buf, extra, q + 3);
        if q + 4 <= buf.len() {
            assert(buf2.subrange(q, q + 4) =~= buf.subrange(q, q + 4));
        } else {
            assert(!matches_at(buf, q + 3, data_tag()));
        }
        assert(buf2[q] == buf[q] && buf2[q + 1] == buf[q + 1] && buf2[q + 2] == buf[q + 2]);
    }
}

proof fn lemma_find_done_extend(buf: Seq<u8>, extra: Seq<u8>, q: int, e: int)
    requires
        q <= e,
        find_done(buf, q) == Some(e),
    ensures
        find_done(buf + extra, q) == Some(e),
    decreases e - q,
{
    let buf2 = buf + extra;
    if matches_at(buf, q, done_tag()) {
        lemma_match_extend(buf, extra, q, done_tag());
    } else {
        if q + 1 <= e {
            lemma_find_done_extend(buf, extra, q + 1, e);
        }
        lemma_find_done_start(buf, q + 1, e);
        assert(matches_at(buf, e, done_tag()));
        if q >= 0 {
            assert(buf2.subrange(q, q + 5) =~= buf.subrange(q, q + 5));
        }
    }
}

proof fn lemma_find_done_start(buf: Seq<u8>, q: int, e: int)
    requires
        find_done(buf, q) == Some(e),
    ensures
        q <= e,
        matches_at(buf, e, done_tag()),
    decreases buf.len() - q,
{
    if !matches_at(buf, q, done_tag()) {
        lemma_find_done_start(buf, q + 1, e);
    }
}

/// Once a file has been read whole, bytes appended to it change nothing: reading stops at
/// the first `DONE!` after `DATA`, and reads nothing past it.
pub proof fn lemma_parse_ignores_trailing(buf: Seq<u8>, extra: Seq<u8>, p: int)
    requires
        0 <= p,
        parse_spec(buf, p).0 is Ok,
    ensures
        parse_spec(buf + extra, p) == parse_spec(buf, p),
        parse_dimensions_decodable(buf + extra, p) == parse_dimensions_decodable(buf, p),
{
    let buf2 = buf + extra;
    lemma_header_extend(buf, extra, p);
    let p1 = header_spec(buf, p).1;
    lemma_dimensions_extend(buf, extra, p1);
    let p2 = dimensions_spec(buf, p1).1;
    let (w, h) = dimensions_spec(buf, p1).0->Ok_0;
    lemma_expect_extend(buf, extra, p2, indx_tag());
    lemma_expect_agrees(buf, p2, indx_tag());
    let q = expect(buf, p2, indx_tag()).1;
    lemma_palette_from_extend(buf, extra, q);
    let p3 = palette_spec(buf, p2).1;
    let colors = palette_spec(buf, p2).0->Ok_0;
    lemma_expect_extend(buf, extra, p3, data_tag());
    lemma_expect_agrees(buf, p3, data_tag());
    let q4 = expect(buf, p3, data_tag()).1;
    let e = find_done(buf, q4)->Some_0;
    lemma_find_done_start(buf, q4, e);
    lemma_find_done_extend(buf, extra, q4, e);
    assert(buf2.subrange(q4, e) =~= buf.subrange(q4, e));
    assert(pixels_spec(buf2, p3, w, h, colors.len()) == pixels_spec(buf, p3, w, h, colors.len()));
}

} // verus!
