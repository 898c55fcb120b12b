//! The run-length coding of the DATA section.
//!
//! A coded stream is a sequence of packets. A header byte with its top bit set
//! starts a run: the next byte repeats `(header & 0x7f) + 1` times. Any other
//! header starts a literal: the `header + 1` bytes that follow are copied.
use vstd::prelude::*;
use crate::error::{reports, MEIFParserError, ParseFailure};

verus! {

/// A stretch of the input that the coder writes as one packet.
pub enum Region {
    /// A byte and how many times it repeats.
    Run(u8, usize),
    /// Bytes copied as they are.
    Literal(Vec<u8>),
}

/// What a region stands for.
pub ghost enum RegionModel {
    Run(u8, nat),
    Literal(Seq<u8>),
}

impl View for Region {
    type V = RegionModel;

    open spec fn view(&self) -> RegionModel {
        match self {
            Region::Run(b, n) => RegionModel::Run(*b, *n as nat),
            Region::Literal(l) => RegionModel::Literal(l@),
        }
    }
}

/// The models of a sequence of regions.
pub open spec fn regions_view(rs: Seq<Region>) -> Seq<RegionModel> {
    rs.map_values(|r: Region| r@)
}

/// Three equal bytes start at `i`.
pub open spec fn run_at(data: Seq<u8>, i: int) -> bool {
    &&& 0 <= i
    &&& i + 2 < data.len()
    &&& data[i] == data[i + 1]
    &&& data[i] == data[i + 2]
}

/// The length of the run at `i`, `k` of whose bytes are already counted: it grows while the
/// next byte repeats `data[i]`, up to 128.
pub open spec fn run_extent(data: Seq<u8>, i: int, k: int) -> int
    decreases 128 - k,
{
    if k < 128 && 0 <= i && i + k < data.len() && data[i + k] == data[i] {
        run_extent(data, i, k + 1)
    } else {
        k
    }
}

/// The length of the literal at `i`, `k` of whose bytes are already taken: it grows until it
/// holds 128 bytes, the input ends, or three equal bytes follow.
pub open spec fn literal_extent(data: Seq<u8>, i: int, k: int) -> int
    decreases 128 - k,
{
    if k >= 128 || i + k >= data.len() || run_at(data, i + k) {
        k
    } else {
        literal_extent(data, i, k + 1)
    }
}

pub proof fn lemma_run_extent_ge(data: Seq<u8>, i: int, k: int)
    ensures
        run_extent(data, i, k) >= k,
    decreases 128 - k,
{
    if k < 128 && 0 <= i && i + k < data.len() && data[i + k] == data[i] {
        lemma_run_extent_ge(data, i, k + 1);
    }
}

pub proof fn lemma_literal_extent_ge(data: Seq<u8>, i: int, k: int)
    ensures
        literal_extent(data, i, k) >= k,
    decreases 128 - k,
{
    if !(k >= 128 || i + k >= data.len() || run_at(data, i + k)) {
        lemma_literal_extent_ge(data, i, k + 1);
    }
}

/// The regions into which the coder cuts `data` from position `i` on: a run wherever three
/// equal bytes start, a literal elsewhere.
pub open spec fn spec_regions(data: Seq<u8>, i: int) -> Seq<RegionModel>
    decreases data.len() - i
    via spec_regions_decreases
{
    if i < 0 || i >= data.len() {
        seq![]
    } else if run_at(data, i) {
        let k = run_extent(data, i, 3);
        seq![RegionModel::Run(data[i], k as nat)] + spec_regions(data, i + k)
    } else {
        let k = literal_extent(data, i, 1);
        seq![RegionModel::Literal(data.subrange(i, i + k))] + spec_regions(data, i + k)
    }
}

proof fn lemma_run_extent_le(data: Seq<u8>, i: int, k: int)
    requires
        i + k <= data.len(),
    ensures
        i + run_extent(data, i, k) <= data.len(),
    decreases 128 - k,
{
    if k < 128 && 0 <= i && i + k < data.len() && data[i + k] == data[i] {
        lemma_run_extent_le(data, i, k + 1);
    }
}

proof fn lemma_literal_extent_le(data: Seq<u8>, i: int, k: int)
    requires
        i + k <= data.len(),
    ensures
        i + literal_extent(data, i, k) <= data.len(),
    decreases 128 - k,
{
    if !(k >= 128 || i + k >= data.len() || run_at(data, i + k)) {
        lemma_literal_extent_le(data, i, k + 1);
    }
}

#[via_fn]
proof fn spec_regions_decreases(data: Seq<u8>, i: int) {
    if 0 <= i < data.len() {
        if run_at(data, i) {
            lemma_run_extent_ge(data, i, 3);
            lemma_run_extent_le(data, i, 3);
        } else {
            lemma_literal_extent_ge(data, i, 1);
            lemma_literal_extent_le(data, i, 1);
        }
    }
}

/// The packet that codes a region.
pub open spec fn encode_region(r: RegionModel) -> Seq<u8> {
    match r {
        RegionModel::Run(b, n) => seq![(n + 127) as u8, b],
        RegionModel::Literal(l) => seq![(l.len() - 1) as u8] + l,
    }
}

/// The packets of a sequence of regions, one after the other.
pub open spec fn encode_regions(rs: Seq<RegionModel>) -> Seq<u8>
    decreases rs.len(),
{
    if rs.len() == 0 {
        seq![]
    } else {
        encode_region(rs[0]) + encode_regions(rs.drop_first())
    }
}

/// The coded form of `data`.
pub open spec fn spec_compress(data: Seq<u8>) -> Seq<u8> {
    encode_regions(spec_regions(data, 0))
}

/// `x` put in front of what a decoding gave, or the decoding's failure.
pub open spec fn prepend(x: Seq<u8>, r: Result<Seq<u8>, ParseFailure>) -> Result<Seq<u8>, ParseFailure> {
    match r {
        Ok(y) => Ok(x + y),
        Err(f) => Err(f),
    }
}

/// Decoding of a coded stream: the bytes it stands for, or the first packet that is cut short.
pub open spec fn spec_decompress(s: Seq<u8>) -> Result<Seq<u8>, ParseFailure>
    decreases s.len(),
{
    if s.len() == 0 {
        Ok(seq![])
    } else if s[0] >= 128 {
        if s.len() < 2 {
            Err(ParseFailure::RunTruncated)
        } else {
            prepend(Seq::new((s[0] - 127) as nat, |j: int| s[1]), spec_decompress(s.skip(2)))
        }
    } else {
        if s.len() < s[0] + 2 {
            Err(ParseFailure::LiteralTruncated)
        } else {
            prepend(s.subrange(1, s[0] + 2), spec_decompress(s.skip(s[0] + 2)))
        }
    }
}

/// An exec result of bytes agrees with a spec result: the same bytes, or the error for the
/// same failure.
pub open spec fn bytes_result(r: Result<Vec<u8>, MEIFParserError>, s: Result<Seq<u8>, ParseFailure>) -> bool {
    match (r, s) {
        (Ok(v), Ok(x)) => v@ == x,
        (Err(e), Err(f)) => reports(e, f),
        _ => false,
    }
}

/// A region that the coder can write as one packet.
pub open spec fn region_valid(r: RegionModel) -> bool {
    match r {
        RegionModel::Run(_, n) => 1 <= n <= 128,
        RegionModel::Literal(l) => 1 <= l.len() <= 128,
    }
}

/// The bytes a region stands for.
pub open spec fn expand_region(r: RegionModel) -> Seq<u8> {
    match r {
        RegionModel::Run(b, n) => Seq::new(n, |j: int| b),
        RegionModel::Literal(l) => l,
    }
}

/// The bytes a sequence of regions stands for.
pub open spec fn expand_regions(rs: Seq<RegionModel>) -> Seq<u8>
    decreases rs.len(),
{
    if rs.len() == 0 {
        seq![]
    } else {
        expand_region(rs[0]) + expand_regions(rs.drop_first())
    }
}

proof fn lemma_prepend_assoc(a: Seq<u8>, b: Seq<u8>, r: Result<Seq<u8>, ParseFailure>)
    ensures
        prepend(a, prepend(b, r)) == prepend(a + b, r),
{
    if let Ok(y) = r {
        assert(a + (b + y) =~= (a + b) + y);
    }
}

proof fn lemma_prepend_empty(r: Result<Seq<u8>, ParseFailure>)
    ensures
        prepend(seq![], r) == r,
{
    if let Ok(y) = r {
        assert(Seq::<u8>::empty() + y =~= y);
    }
}

proof fn lemma_run_extent_bounds(data: Seq<u8>, i: int, k: int)
    requires
        1 <= k <= 128,
        0 <= i,
        i + k <= data.len(),
        forall|j: int| i <= j < i + k ==> #[trigger] data[j] == data[i],
    ensures
        k <= run_extent(data, i, k) <= 128,
        i + run_extent(data, i, k) <= data.len(),
        forall|j: int| i <= j < i + run_extent(data, i, k) ==> #[trigger] data[j] == data[i],
    decreases 128 - k,
{
    if k < 128 && i + k < data.len() && data[i + k] == data[i] {
        assert forall|j: int| i <= j < i + k + 1 implies #[trigger] data[j] == data[i] by {
            if j < i + k {
            }
        }
        lemma_run_extent_bounds(data, i, k + 1);
    }
}

proof fn lemma_literal_extent_bounds(data: Seq<u8>, i: int, k: int)
    requires
        1 <= k <= 128,
        i + k <= data.len(),
    ensures
        k <= literal_extent(data, i, k) <= 128,
        i + literal_extent(data, i, k) <= data.len(),
    decreases 128 - k,
{
    if !(k >= 128 || i + k >= data.len() || run_at(data, i + k)) {
        lemma_literal_extent_bounds(data, i, k + 1);
    }
}

/// The regions the coder cuts are writable packets, and they stand for exactly the input.
proof fn lemma_regions_cover(data: Seq<u8>, i: int)
    requires
        0 <= i <= data.len(),
    ensures
        forall|j: int| 0 <= j < spec_regions(data, i).len() ==> region_valid(#[trigger] spec_regions(data, i)[j]),
        expand_regions(spec_regions(data, i)) == data.subrange(i, data.len() as int),
    decreases data.len() - i,
{
    if i == data.len() {
        assert(data.subrange(i, data.len() as int) =~= Seq::<u8>::empty());
    } else {
        let rs = spec_regions(data, i);
        let k = if run_at(data, i) { run_extent(data, i, 3) } else { literal_extent(data, i, 1) };
        let r = rs[0];
        if run_at(data, i) {
            assert forall|j: int| i <= j < i + 3 implies #[trigger] data[j] == data[i] by {
                if j == i + 1 {
                } else if j == i + 2 {
                }
            }
            lemma_run_extent_bounds(data, i, 3);
            assert(expand_region(r) =~= data.subrange(i, i + k));
        } else {
            lemma_literal_extent_bounds(data, i, 1);
        }
        let rest = spec_regions(data, i + k);
        assert(rs == seq![r] + rest);
        assert(rs.drop_first() =~= rest);
        lemma_regions_cover(data, i + k);
        assert forall|j: int| 0 <= j < rs.len() implies region_valid(#[trigger] rs[j]) by {
            if j > 0 {
                assert(rs[j] == rest[j - 1]);
            }
        }
        assert(data.subrange(i, data.len() as int) =~= data.subrange(i, i + k) + data.subrange(i + k, data.len() as int));
    }
}

/// Decoding a packet followed by more bytes gives the region, then the decoding of the rest.
proof fn lemma_decode_packet(r: RegionModel, rest: Seq<u8>)
    requires
        region_valid(r),
    ensures
        spec_decompress(encode_region(r) + rest) == prepend(expand_region(r), spec_decompress(rest)),
{
    let s = encode_region(r) + rest;
    match r {
        RegionModel::Run(b, n) => {
            assert(s[0] == (n + 127) as u8);
            assert(s[1] == b);
            assert(s.skip(2) =~= rest);
            assert(Seq::new((s[0] - 127) as nat, |j: int| s[1]) =~= Seq::new(n, |j: int| b));
        },
        RegionModel::Literal(l) => {
            assert(s[0] == (l.len() - 1) as u8);
            assert(s.subrange(1, s[0] + 2) =~= l);
            assert(s.skip(s[0] + 2) =~= rest);
        },
    }
}

proof fn lemma_decode_regions(rs: Seq<RegionModel>)
    requires
        forall|j: int| 0 <= j < rs.len() ==> region_valid(#[trigger] rs[j]),
    ensures
        spec_decompress(encode_regions(rs)) == Ok::<Seq<u8>, ParseFailure>(expand_regions(rs)),
    decreases rs.len(),
{
    if rs.len() > 0 {
        let tail = rs.drop_first();
        assert forall|j: int| 0 <= j < tail.len() implies region_valid(#[trigger] tail[j]) by {
            assert(tail[j] == rs[j + 1]);
        }
        lemma_decode_regions(tail);
        assert(region_valid(rs[0]));
        lemma_decode_packet(rs[0], encode_regions(tail));
    }
}

/// Decoding gives back what was coded.
pub proof fn lemma_compress_roundtrip(data: Seq<u8>)
    ensures
        spec_decompress(spec_compress(data)) == Ok::<Seq<u8>, ParseFailure>(data),
{
    lemma_regions_cover(data, 0);
    lemma_decode_regions(spec_regions(data, 0));
    assert(data.subrange(0, data.len() as int) =~= data);
}

/// Every region that the coder cuts is a writable packet.
pub proof fn lemma_regions_valid(data: Seq<u8>)
    ensures
        forall|j: int| 0 <= j < spec_regions(data, 0).len() ==> region_valid(#[trigger] spec_regions(data, 0)[j]),
{
    lemma_regions_cover(data, 0);
}

proof fn lemma_run_extent_max(data: Seq<u8>, i: int, k: int)
    requires
        k <= 128,
    ensures
        run_extent(data, i, k) == 128 || i < 0 || i + run_extent(data, i, k) >= data.len()
            || data[i + run_extent(data, i, k)] != data[i],
    decreases 128 - k,
{
    if k < 128 && 0 <= i && i + k < data.len() && data[i + k] == data[i] {
        lemma_run_extent_max(data, i, k + 1);
    }
}

proof fn lemma_literal_extent_max(data: Seq<u8>, i: int, k: int)
    requires
        k <= 128,
    ensures
        literal_extent(data, i, k) == 128 || i + literal_extent(data, i, k) >= data.len()
            || run_at(data, i + literal_extent(data, i, k)),
        forall|j: int| i + k <= j < i + literal_extent(data, i, k) ==> !#[trigger] run_at(data, j),
    decreases 128 - k,
{
    if !(k >= 128 || i + k >= data.len() || run_at(data, i + k)) {
        lemma_literal_extent_max(data, i, k + 1);
    }
}

/// The coder cuts greedily. Where three equal bytes start, it writes a run as long as the
/// byte repeats, up to 128; elsewhere a literal that stops at 128 bytes, at the end of the
/// input, or just before three equal bytes, none of which start inside it. The rest of the
/// input is cut in the same way from where the first region ends.
pub proof fn lemma_regions_greedy(data: Seq<u8>, i: int)
    requires
        0 <= i < data.len(),
    ensures ({
        let rs = spec_regions(data, i);
        &&& rs.len() >= 1
        &&& match rs[0] {
            RegionModel::Run(b, n) => {
                &&& run_at(data, i)
                &&& b == data[i]
                &&& 3 <= n <= 128
                &&& i + n <= data.len()
                &&& forall|j: int| i <= j < i + n ==> #[trigger] data[j] == b
                &&& n == 128 || i + n == data.len() || data[i + n] != b
                &&& rs.drop_first() == spec_regions(data, i + n)
            },
            RegionModel::Literal(l) => {
                &&& 1 <= l.len() <= 128
                &&& i + l.len() <= data.len()
                &&& l == data.subrange(i, i + l.len())
                &&& forall|j: int| i <= j < i + l.len() ==> !#[trigger] run_at(data, j)
                &&& l.len() == 128 || i + l.len() == data.len() || run_at(data, i + l.len())
                &&& rs.drop_first() == spec_regions(data, i + l.len())
            },
        }
    }),
{
    let rs = spec_regions(data, i);
    if run_at(data, i) {
        let k = run_extent(data, i, 3);
        assert forall|j: int| i <= j < i + 3 implies #[trigger] data[j] == data[i] by {
            if j == i + 1 {
            } else if j == i + 2 {
            }
        }
        lemma_run_extent_bounds(data, i, 3);
        lemma_run_extent_max(data, i, 3);
        assert(rs.drop_first() =~= spec_regions(data, i + k));
    } else {
        let k = literal_extent(data, i, 1);
        lemma_literal_extent_bounds(data, i, 1);
        lemma_literal_extent_max(data, i, 1);
        assert(rs.drop_first() =~= spec_regions(data, i + k));
    }
}

proof fn lemma_encode_regions_cons(r: RegionModel, rest: Seq<RegionModel>)
    ensures
        encode_regions(seq![r] + rest) == encode_region(r) + encode_regions(rest),
{
    assert((seq![r] + rest).drop_first() =~= rest);
}

/// The coded length of the input from `i` on: at most one more byte than its length for
/// each 128 of it, counting a part as a whole; one less where a run starts at `i`.
proof fn lemma_coded_length(data: Seq<u8>, i: int)
    requires
        0 <= i <= data.len(),
    ensures
        encode_regions(spec_regions(data, i)).len() <= (data.len() - i) + (data.len() - i + 127) / 128,
        run_at(data, i) ==> encode_regions(spec_regions(data, i)).len() + 1 <= (data.len() - i) + (
        data.len() - i + 127) / 128,
    decreases data.len() - i,
{
    if i < data.len() {
        lemma_regions_greedy(data, i);
        let rs = spec_regions(data, i);
        let m = data.len() - i;
        assert(rs == seq![rs[0]] + rs.drop_first());
        lemma_encode_regions_cons(rs[0], rs.drop_first());
        match rs[0] {
            RegionModel::Run(b, n) => {
                lemma_coded_length(data, i + n);
                assert((m - n + 127) / 128 <= (m + 127) / 128);
            },
            RegionModel::Literal(l) => {
                let k = l.len() as int;
                lemma_coded_length(data, i + k);
                if k == 128 {
                    assert((m - 128 + 127) / 128 + 1 == (m + 127) / 128);
                } else if i + k == data.len() {
                    assert(spec_regions(data, i + k).len() == 0);
                } else {
                    assert((m - k + 127) / 128 <= (m + 127) / 128);
                }
            },
        }
    }
}

/// The coded form of `n` bytes is at most `n + ceil(n / 128)` bytes long: a literal costs one
/// header byte per 128 bytes at most, and a run of three or more bytes costs two.
pub proof fn lemma_compress_size(data: Seq<u8>)
    ensures
        spec_compress(data).len() <= data.len() + (data.len() + 127) / 128,
{
    lemma_coded_length(data, 0);
}

/// `n` copies of a byte, for `3 <= n <= 128`, are coded as the two bytes `0x80 | (n - 1)`
/// and the byte itself.
pub proof fn lemma_compress_run(b: u8, n: nat)
    requires
        3 <= n <= 128,
    ensures
        spec_compress(Seq::new(n, |_j: int| b)) == seq![(0x80 | (n - 1) as u8) as u8, b],
{
    let data = Seq::new(n, |_j: int| b);
    assert(run_at(data, 0));
    lemma_run_extent_bounds(data, 0, 3);
    lemma_run_extent_max(data, 0, 3);
    let k = run_extent(data, 0, 3);
    assert(k == n);
    let rs = spec_regions(data, 0);
    assert(spec_regions(data, k) == Seq::<RegionModel>::empty());
    assert(rs =~= seq![RegionModel::Run(b, n)]);
    assert(rs.drop_first() =~= Seq::<RegionModel>::empty());
    let m = (n - 1) as u8;
    assert(m < 128);
    assert((0x80 | m) == m + 128) by (bit_vector)
        requires
            m < 128u8,
    ;
    assert(encode_regions(rs.drop_first()) == Seq::<u8>::empty());
    assert(encode_regions(rs) == encode_region(rs[0]) + encode_regions(rs.drop_first()));
    assert(encode_region(rs[0]) == seq![(n + 127) as u8, b]);
    assert(((n + 127) as u8) == (0x80 | m));
    assert(spec_compress(data) =~= seq![(0x80 | (n - 1) as u8) as u8, b]);
}

/// A packet whose header `h` has its top bit set stands for `(h & 0x7f) + 1` copies of the
/// byte that follows it, and decoding goes on after those two bytes.
pub proof fn lemma_decompress_run_packet(h: u8, b: u8, rest: Seq<u8>)
    requires
        h >= 0x80,
    ensures
        spec_decompress(seq![h, b] + rest) == prepend(
            Seq::new(((h & 0x7f) + 1) as nat, |_j: int| b),
            spec_decompress(rest),
        ),
{
    let s = seq![h, b] + rest;
    assert((h & 0x7f) == h - 128) by (bit_vector)
        requires
            h >= 0x80u8,
    ;
    assert(s[0] == h && s[1] == b);
    assert(s.skip(2) =~= rest);
    assert(Seq::new((s[0] - 127) as nat, |j: int| s[1]) =~= Seq::new(((h & 0x7f) + 1) as nat, |_j: int| b));
}

/// A packet whose header `h` has its top bit clear stands for the `h + 1` bytes that follow
/// it, copied as they are, and decoding goes on after them.
pub proof fn lemma_decompress_literal_packet(h: u8, lit: Seq<u8>, rest: Seq<u8>)
    requires
        h < 0x80,
        lit.len() == h + 1,
    ensures
        spec_decompress(seq![h] + lit + rest) == prepend(lit, spec_decompress(rest)),
{
    let s = seq![h] + lit + rest;
    assert(s[0] == h);
    assert(s.subrange(1, h + 2) =~= lit);
    assert(s.skip(h + 2) =~= rest);
}

/// Cuts `data` into runs of at least three equal bytes and literals, each at most 128 long.
pub fn build_regions(data: &[u8]) -> (regions: Vec<Region>)
    ensures
        regions_view(regions@) == spec_regions(data@, 0),
{
    let mut regions: Vec<Region> = Vec::new();
    let mut i: usize = 0;
    while i < data.len()
        invariant
            i <= data.len(),
            spec_regions(data@, 0) == regions_view(regions@) + spec_regions(data@, i as int),
        decreases data.len() - i,
    {
        let ghost before = regions@;
        let ghost i0 = i as int;
        // Check for run
        if data.len() - i > 2 && data[i] == data[i + 1] && data[i] == data[i + 2] {
            let byte = data[i];
            let mut run_len: usize = 3;
            while i + run_len < data.len() && data[i + run_len] == byte && run_len < 128
                invariant
                    3 <= run_len <= 128,
                    i + run_len <= data.len(),
                    i < data.len(),
                    byte == data@[i as int],
                    run_extent(data@, i as int, 3) == run_extent(data@, i as int, run_len as int),
                decreases 128 - run_len,
            {
                run_len += 1;
            }
            regions.push(Region::Run(byte, run_len));
            i += run_len;
            proof {
                assert(run_at(data@, i0));
                let rest = spec_regions(data@, i as int);
                assert(spec_regions(data@, i0) == seq![RegionModel::Run(byte, run_len as nat)] + rest);
                assert(regions_view(regions@) =~= regions_view(before).push(RegionModel::Run(byte, run_len as nat)));
                assert(regions_view(before) + (seq![RegionModel::Run(byte, run_len as nat)] + rest)
                    =~= regions_view(before).push(RegionModel::Run(byte, run_len as nat)) + rest);
            }
        } else {
            let mut literal: Vec<u8> = Vec::new();
            let start = i;
            assert(!run_at(data@, start as int));
            while i < data.len()
                invariant_except_break
                    start <= i <= data.len(),
                    start < data.len(),
                    i - start < 128,
                    literal@ == data@.subrange(start as int, i as int),
                    i == start ==> !run_at(data@, start as int),
                    i > start ==> literal_extent(data@, start as int, 1) == literal_extent(
                        data@,
                        start as int,
                        (i - start) as int,
                    ),
                ensures
                    start < i <= data.len(),
                    literal@ == data@.subrange(start as int, i as int),
                    (i - start) as int == literal_extent(data@, start as int, 1),
                decreases data.len() - i,
            {
                // Stop before a run of 3
                if data.len() - i > 2 && data[i] == data[i + 1] && data[i] == data[i + 2] {
                    assert(run_at(data@, i as int));
                    assert(literal_extent(data@, start as int, (i - start) as int) == (i - start) as int);
                    assert(i > start);
                    assert(literal_extent(data@, start as int, 1) == literal_extent(data@, start as int, (i - start) as int));
                    break;
                }
                let ghost k = (i - start) as int;
                proof {
                    assert(!run_at(data@, start + k));
                    if k > 0 {
                        assert(literal_extent(data@, start as int, k) == literal_extent(data@, start as int, k + 1));
                    }
                }
                literal.push(data[i]);
                i += 1;
                assert(literal@ =~= data@.subrange(start as int, i as int));
                assert(literal_extent(data@, start as int, 1) == literal_extent(data@, start as int, (i - start) as int));
                if literal.len() == 128 {
                    break;
                }
            }
            let ghost lit = literal@;
            regions.push(Region::Literal(literal));
            proof {
                let k = (i - start) as int;
                let rest = spec_regions(data@, i as int);
                assert(spec_regions(data@, i0) == seq![RegionModel::Literal(lit)] + rest);
                assert(regions_view(regions@) =~= regions_view(before).push(RegionModel::Literal(lit)));
                assert(regions_view(before) + (seq![RegionModel::Literal(lit)] + rest)
                    =~= regions_view(before).push(RegionModel::Literal(lit)) + rest);
            }
        }
    }
    proof {
        assert(spec_regions(data@, i as int) == Seq::<RegionModel>::empty());
        assert(regions_view(regions@) + Seq::<RegionModel>::empty() =~= regions_view(regions@));
    }
    regions
}

/// The two slices hold the same bytes.
fn bytes_equal(a: &[u8], b: &[u8]) -> (r: bool)
    ensures
        r == (a@ == b@),
{
    if a.len() != b.len() {
        return false;
    }
    let mut i: usize = 0;
    while i < a.len()
        invariant
            i <= a.len(),
            a.len() == b.len(),
            forall|j: int| 0 <= j < i ==> a@[j] == b@[j],
        decreases a.len() - i,
    {
        if a[i] != b[i] {
            return false;
        }
        i += 1;
    }
    assert(a@ =~= b@);
    true
}

/// Codes `data`. The coded bytes are decoded again and compared with `data`; the comparison
/// always agrees, so the result is always `Ok`.
pub fn compress(data: &[u8]) -> (r: Result<Vec<u8>, MEIFParserError>)
    ensures
        r matches Ok(v) && v@ == spec_compress(data@),
{
    let regions = build_regions(data);
    let mut result: Vec<u8> = Vec::new();
    let ghost rs = regions_view(regions@);
    proof {
        lemma_regions_valid(data@);
        assert(rs.skip(0) =~= rs);
    }
    let mut k: usize = 0;
    while k < regions.len()
        invariant
            k <= regions.len(),
            rs == regions_view(regions@),
            forall|j: int| 0 <= j < rs.len() ==> region_valid(#[trigger] rs[j]),
            result@ + encode_regions(rs.skip(k as int)) == encode_regions(rs),
        decreases regions.len() - k,
    {
        let ghost old_result = result@;
        let ghost r = rs[k as int];
        assert(region_valid(r));
        assert(rs.skip(k as int).drop_first() =~= rs.skip(k + 1));
        assert(rs.skip(k as int)[0] == r);
        match &regions[k] {
            Region::Run(byte, len) => {
                let n: u8 = (*len - 1) as u8;
                assert(0b1000_0000u8 | n == n + 128) by (bit_vector)
                    requires
                        n < 128,
                ;
                result.push(0b1000_0000 | n);
                result.push(*byte);
                assert(result@ =~= old_result + encode_region(r));
            },
            Region::Literal(lit) => {
                result.push((lit.len() - 1) as u8);
                let mut j: usize = 0;
                while j < lit.len()
                    invariant
                        j <= lit.len(),
                        result@ == old_result + seq![(lit@.len() - 1) as u8] + lit@.subrange(0, j as int),
                    decreases lit.len() - j,
                {
                    result.push(lit[j]);
                    j += 1;
                    assert(result@ =~= old_result + seq![(lit@.len() - 1) as u8] + lit@.subrange(0, j as int));
                }
                assert(lit@.subrange(0, lit@.len() as int) =~= lit@);
                assert(result@ =~= old_result + encode_region(r));
            },
        }
        k += 1;
        assert(old_result + encode_regions(rs.skip(k - 1)) == old_result + (encode_region(r) + encode_regions(rs.skip(k as int))));
        assert(old_result + (encode_region(r) + encode_regions(rs.skip(k as int))) =~= result@ + encode_regions(rs.skip(k as int)));
    }
    proof {
        assert(rs.skip(k as int) =~= Seq::<RegionModel>::empty());
        assert(result@ + Seq::<u8>::empty() =~= result@);
        lemma_compress_roundtrip(data@);
    }
    match decompress(&result) {
        Ok(decoded) => {
            if !bytes_equal(&decoded, data) {
                return Err(MEIFParserError::new("Compression failed: data mismatch"));
            }
        },
        Err(e) => {
            return Err(e);
        },
    }
    Ok(result)
}

/// Decodes a coded stream: the bytes it stands for, or the error for the first packet that
/// is cut short.
pub fn decompress(data: &[u8]) -> (r: Result<Vec<u8>, MEIFParserError>)
    ensures
        bytes_result(r, spec_decompress(data@)),
{
    let mut result: Vec<u8> = Vec::new();
    let mut i: usize = 0;
    proof {
        assert(data@.skip(0) =~= data@);
        lemma_prepend_empty(spec_decompress(data@));
    }
    while i < data.len()
        invariant
            i <= data.len(),
            spec_decompress(data@) == prepend(result@, spec_decompress(data@.skip(i as int))),
        decreases data.len() - i,
    {
        let ghost s = data@.skip(i as int);
        let ghost old_result = result@;
        let header = data[i];
        assert(s[0] == header);
        i += 1;
        let is_run = (header & 0b1000_0000) != 0;
        let length = (header & 0b0111_1111) as usize + 1;
        assert(((header & 0b1000_0000) != 0) == (header >= 128)) by (bit_vector);
        assert((header & 0b0111_1111) == (if header >= 128 { (header - 128) as u8 } else { header }))
            by (bit_vector);
        if is_run {
            if i >= data.len() {
                return Err(MEIFParserError::new("Unexpected end of input while decoding run"));
            }
            let value = data[i];
            assert(s[1] == value);
            i += 1;
            let mut n: usize = 0;
            while n < length
                invariant
                    n <= length,
                    result@ == old_result + Seq::new(n as nat, |j: int| value),
                decreases length - n,
            {
                result.push(value);
                n += 1;
                assert(result@ =~= old_result + Seq::new(n as nat, |j: int| value));
            }
            proof {
                assert(s.skip(2) =~= data@.skip(i as int));
                assert(Seq::new((s[0] - 127) as nat, |j: int| s[1]) =~= Seq::new(length as nat, |j: int| value));
                lemma_prepend_assoc(old_result, Seq::new(length as nat, |j: int| value), spec_decompress(data@.skip(i as int)));
            }
        } else {
            if length > data.len() - i {
                return Err(MEIFParserError::new("Unexpected end of input while decoding literal"));
            }
            let end = i + length;
            let ghost first = i;
            while i < end
                invariant
                    first <= i <= end,
                    end <= data.len(),
                    result@ == old_result + data@.subrange(first as int, i as int),
                decreases end - i,
            {
                result.push(data[i]);
                i += 1;
                assert(result@ =~= old_result + data@.subrange(first as int, i as int));
            }
            proof {
                assert(s.subrange(1, s[0] + 2) =~= data@.subrange(first as int, end as int));
                assert(s.skip(s[0] + 2) =~= data@.skip(end as int));
                lemma_prepend_assoc(old_result, data@.subrange(first as int, end as int), spec_decompress(data@.skip(end as int)));
            }
        }
    }
    proof {
        assert(data@.skip(i as int) =~= Seq::<u8>::empty());
        assert(result@ + Seq::<u8>::empty() =~= result@);
    }
    Ok(result)
}

} // verus!
