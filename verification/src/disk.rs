//! On-disk format for the one-sided bearoff database, read from a raw byte slice.
//!
//! # Format (version 1), all multi-byte integers little-endian
//!
//! ```text
//! Header (20 bytes):
//!   0..4   magic: b"OGB1"
//!   4..6   version: u16          (1)
//!   6      points: u8            (one_sided::POINTS)
//!   7      max_checkers: u8      (one_sided::MAX_CHECKERS)
//!   8..10  max_finish_len: u16
//!   10..12 max_first_off_len: u16
//!   12..16 finish_count: u32     (= combinatorial::count(points, max_checkers))
//!   16..20 first_off_count: u32  (= combinatorial::count(points - 1, max_checkers))
//! ```
//!
//! The finish section follows the header: `finish_count` records of `max_finish_len`
//! quantized `u16` values each, zero-padded past a position's real support; the record for
//! `rank(max_checkers, checkers)` starts at byte `20 + rank * max_finish_len * 2`. The
//! first-off section follows: `first_off_count` records of `max_first_off_len` values,
//! indexed by the rank of the first `points - 1` counts of a position with every checker
//! still on the board (the last point's count is the remainder). Positions with a checker
//! off have no first-off record.

use vstd::prelude::*;

use crate::combinatorial::{
    count, count_spec, lemma_placement_of_rank, lemma_rank_then_placement, placement_of_rank, unrank, lemma_bearoff_counts, lemma_placement_sum_prefix_bound, lemma_placement_sum_push, lemma_rank_below_count,
    placement_sum, rank, rank_from,
};
use crate::one_sided::{MAX_CHECKERS, POINTS};

verus! {

/// The file format version this build reads and writes.
pub const FORMAT_VERSION: u16 = 1;

/// Bytes in the file header.
pub const HEADER_LEN: usize = 20;

/// A parsed, validated file header. Every field a reader needs to interpret the file is
/// read from the file itself.
#[derive(Debug, Clone, Copy, PartialEq, Eq, Structural)]
pub struct Header {
    pub points: u8,
    pub max_checkers: u8,
    pub max_finish_len: u16,
    pub max_first_off_len: u16,
    pub finish_count: u32,
    pub first_off_count: u32,
}

/// Why a byte slice couldn't be parsed as a bearoff database file.
#[derive(Debug, Clone, Copy, PartialEq, Eq, Structural)]
pub enum FormatError {
    TooShortForHeader { len: usize },
    BadMagic,
    UnsupportedVersion { found: u16, supported: u16 },
    ShapeMismatch {
        expected_points: u8,
        expected_max_checkers: u8,
        found_points: u8,
        found_max_checkers: u8,
    },
    Truncated { expected_len: usize, actual_len: usize },
    /// The file holds what its header declares, but too few records for some placement: a
    /// lookup would need the file to be `needed_len` bytes long.
    RecordsMissing { needed_len: usize, actual_len: usize },
}

/// A little-endian `u16` from two bytes.
pub open spec fn le_u16(lo: u8, hi: u8) -> u16 {
    (lo + 256 * hi) as u16
}

/// A little-endian `u32` from four bytes.
pub open spec fn le_u32(b0: u8, b1: u8, b2: u8, b3: u8) -> u32 {
    (b0 + 256 * b1 + 65536 * b2 + 16777216 * b3) as u32
}

/// The file starts with `b"OGB1"`.
pub open spec fn magic_ok(bytes: Seq<u8>) -> bool {
    bytes[0] == 79 && bytes[1] == 71 && bytes[2] == 66 && bytes[3] == 49
}

/// The header fields as stored in the first 20 bytes.
pub open spec fn header_of(bytes: Seq<u8>) -> Header {
    Header {
        points: bytes[6],
        max_checkers: bytes[7],
        max_finish_len: le_u16(bytes[8], bytes[9]),
        max_first_off_len: le_u16(bytes[10], bytes[11]),
        finish_count: le_u32(bytes[12], bytes[13], bytes[14], bytes[15]),
        first_off_count: le_u32(bytes[16], bytes[17], bytes[18], bytes[19]),
    }
}

/// Bytes a file with header `h` must hold.
pub open spec fn expected_len(h: Header) -> int {
    HEADER_LEN + h.finish_count * h.max_finish_len * 2 + h.first_off_count * h.max_first_off_len * 2
}

/// Bytes a lookup may read in a file with header `h`: through the finish record of the
/// last placement, and through the first-off record of the last placement with no checker
/// off.
pub open spec fn lookup_len(h: Header) -> int {
    let finish_end = HEADER_LEN + count_spec(POINTS as nat, MAX_CHECKERS as nat) * h.max_finish_len * 2;
    let first_off_end = HEADER_LEN + h.finish_count * h.max_finish_len * 2 + count_spec(
        (POINTS - 1) as nat,
        MAX_CHECKERS as nat,
    ) * h.max_first_off_len * 2;
    if finish_end < first_off_end {
        first_off_end
    } else {
        finish_end
    }
}

/// What parsing `bytes` gives: the first check that fails, in the order magic, version,
/// shape, declared length, and then whether every record a lookup reads lies in the file;
/// or the header.
pub open spec fn parse_spec(bytes: Seq<u8>) -> Result<Header, FormatError> {
    if bytes.len() < HEADER_LEN {
        Err(FormatError::TooShortForHeader { len: bytes.len() as usize })
    } else if !magic_ok(bytes) {
        Err(FormatError::BadMagic)
    } else if le_u16(bytes[4], bytes[5]) != FORMAT_VERSION {
        Err(FormatError::UnsupportedVersion { found: le_u16(bytes[4], bytes[5]), supported: FORMAT_VERSION })
    } else if bytes[6] != POINTS || bytes[7] != MAX_CHECKERS {
        Err(
            FormatError::ShapeMismatch {
                expected_points: POINTS as u8,
                expected_max_checkers: MAX_CHECKERS,
                found_points: bytes[6],
                found_max_checkers: bytes[7],
            },
        )
    } else if bytes.len() < expected_len(header_of(bytes)) {
        Err(
            FormatError::Truncated {
                expected_len: expected_len(header_of(bytes)) as usize,
                actual_len: bytes.len() as usize,
            },
        )
    } else if bytes.len() < lookup_len(header_of(bytes)) {
        Err(
            FormatError::RecordsMissing {
                needed_len: lookup_len(header_of(bytes)) as usize,
                actual_len: bytes.len() as usize,
            },
        )
    } else {
        Ok(header_of(bytes))
    }
}

/// `n` little-endian `u16` values stored from byte `start` on.
pub open spec fn record_values(bytes: Seq<u8>, start: int, n: int) -> Seq<u16> {
    Seq::new(n as nat, |j: int| le_u16(bytes[start + 2 * j], bytes[start + 2 * j + 1]))
}

/// Where the finish record of the position ranked `r` starts.
pub open spec fn finish_start(h: Header, r: int) -> int {
    HEADER_LEN + r * h.max_finish_len * 2
}

/// Where the first-off record with dense index `d` starts.
pub open spec fn first_off_start(h: Header, d: int) -> int {
    HEADER_LEN + h.finish_count * h.max_finish_len * 2 + d * h.max_first_off_len * 2
}

/// The dense first-off index of a placement: the rank of its first `POINTS - 1` counts.
pub open spec fn first_off_index(checkers: Seq<u8>) -> int {
    rank_from(MAX_CHECKERS as nat, checkers.take(POINTS - 1)) as int
}

/// In a file that parses, the finish record of every placement lies inside the file.
proof fn lemma_finish_record_inside(h: Header, len: int, r: int)
    requires
        lookup_len(h) <= len,
        0 <= r < count_spec(POINTS as nat, MAX_CHECKERS as nat),
    ensures
        finish_start(h, r) + h.max_finish_len * 2 <= len,
{
    let n = count_spec(POINTS as nat, MAX_CHECKERS as nat);
    assert((r + 1) * h.max_finish_len <= n * h.max_finish_len) by (nonlinear_arith)
        requires
            r + 1 <= n,
    ;
    assert(r * h.max_finish_len * 2 + h.max_finish_len * 2 == (r + 1) * h.max_finish_len * 2) by (nonlinear_arith);
}

/// In a file that parses, the first-off record of every placement with no checker off lies
/// inside the file.
proof fn lemma_first_off_record_inside(h: Header, len: int, d: int)
    requires
        lookup_len(h) <= len,
        0 <= d < count_spec((POINTS - 1) as nat, MAX_CHECKERS as nat),
    ensures
        first_off_start(h, d) + h.max_first_off_len * 2 <= len,
{
    let n = count_spec((POINTS - 1) as nat, MAX_CHECKERS as nat);
    assert((d + 1) * h.max_first_off_len <= n * h.max_first_off_len) by (nonlinear_arith)
        requires
            d + 1 <= n,
    ;
    assert(d * h.max_first_off_len * 2 + h.max_first_off_len * 2 == (d + 1) * h.max_first_off_len * 2)
        by (nonlinear_arith);
}

/// Value `j` of a record is the little-endian number in its `j`-th pair of bytes.
proof fn lemma_record_values_bytes(bytes: Seq<u8>, start: int, n: int)
    requires
        n >= 0,
    ensures
        record_values(bytes, start, n).len() == n,
        forall|j: int|
            0 <= j < n ==> #[trigger] record_values(bytes, start, n)[j] == bytes[start + 2 * j] + 256 * bytes[start
                + 2 * j + 1],
{
    assert forall|j: int| 0 <= j < n implies #[trigger] record_values(bytes, start, n)[j] == bytes[start + 2 * j]
        + 256 * bytes[start + 2 * j + 1] by {
        let lo = bytes[start + 2 * j];
        let hi = bytes[start + 2 * j + 1];
        assert(lo + 256 * hi <= 65535);
    }
}

/// A parsed bearoff database, borrowed from a byte slice.
#[derive(Debug)]
pub struct BearoffData<'a> {
    header: Header,
    bytes: &'a [u8],
}

impl<'a> BearoffData<'a> {
    #[verifier::type_invariant]
    spec fn parsed(self) -> bool {
        parse_spec(self.bytes@) == Ok::<Header, FormatError>(self.header)
    }

    /// The parsed header.
    pub closed spec fn spec_header(self) -> Header {
        self.header
    }

    /// The whole file.
    pub closed spec fn bytes_view(self) -> Seq<u8> {
        self.bytes@
    }

    /// Validates `bytes` as a bearoff database file for this build's `POINTS` /
    /// `MAX_CHECKERS` (magic, version, shape, the declared length against the slice's, and
    /// then that every record a lookup reads lies inside the slice), and returns a view over
    /// it.
    pub fn parse(bytes: &'a [u8]) -> (r: Result<Self, FormatError>)
        ensures
            match r {
                Ok(data) => {
                    &&& parse_spec(bytes@) == Ok::<Header, FormatError>(data.spec_header())
                    &&& data.bytes_view() == bytes@
                },
                Err(e) => parse_spec(bytes@) == Err::<Header, FormatError>(e),
            },
    {
        if bytes.len() < HEADER_LEN {
            return Err(FormatError::TooShortForHeader { len: bytes.len() });
        }
        if !(bytes[0] == 79 && bytes[1] == 71 && bytes[2] == 66 && bytes[3] == 49) {
            return Err(FormatError::BadMagic);
        }
        let version = read_u16(bytes, 4);
        if version != FORMAT_VERSION {
            return Err(FormatError::UnsupportedVersion { found: version, supported: FORMAT_VERSION });
        }
        let points = bytes[6];
        let max_checkers = bytes[7];
        if points as usize != POINTS || max_checkers != MAX_CHECKERS {
            return Err(
                FormatError::ShapeMismatch {
                    expected_points: POINTS as u8,
                    expected_max_checkers: MAX_CHECKERS,
                    found_points: points,
                    found_max_checkers: max_checkers,
                },
            );
        }
        let max_finish_len = read_u16(bytes, 8);
        let max_first_off_len = read_u16(bytes, 10);
        let finish_count = read_u32(bytes, 12);
        let first_off_count = read_u32(bytes, 16);
        let header = Header {
            points,
            max_checkers,
            max_finish_len,
            max_first_off_len,
            finish_count,
            first_off_count,
        };
        assert(header == header_of(bytes@));
        assert(finish_count * max_finish_len <= 0xffff_ffff * 0xffff) by (nonlinear_arith)
            requires
                finish_count <= 0xffff_ffff,
                max_finish_len <= 0xffff,
        ;
        assert(first_off_count * max_first_off_len <= 0xffff_ffff * 0xffff) by (nonlinear_arith)
            requires
                first_off_count <= 0xffff_ffff,
                max_first_off_len <= 0xffff,
        ;
        let finish_bytes: u64 = finish_count as u64 * max_finish_len as u64;
        let first_off_bytes: u64 = first_off_count as u64 * max_first_off_len as u64;
        let expected: u64 = HEADER_LEN as u64 + finish_bytes * 2 + first_off_bytes * 2;
        assert(expected == expected_len(header));
        if (bytes.len() as u64) < expected {
            return Err(FormatError::Truncated {
                expected_len: #[verifier::truncate] (expected as usize),
                actual_len: bytes.len(),
            });
        }
        proof {
            lemma_bearoff_counts();
        }
        let finish_end: u64 = HEADER_LEN as u64 + 54264 * max_finish_len as u64 * 2;
        let first_off_end: u64 = HEADER_LEN as u64 + finish_bytes * 2 + 15504 * max_first_off_len as u64 * 2;
        let needed: u64 = if finish_end < first_off_end {
            first_off_end
        } else {
            finish_end
        };
        assert(needed == lookup_len(header));
        if (bytes.len() as u64) < needed {
            return Err(FormatError::RecordsMissing {
                needed_len: #[verifier::truncate] (needed as usize),
                actual_len: bytes.len(),
            });
        }
        Ok(BearoffData { header, bytes })
    }

    /// The quantized `finish` distribution for `checkers`, zero-padded past the position's
    /// real support.
    pub fn finish_quantized(&self, checkers: [u8; POINTS]) -> (values: Vec<u16>)
        requires
            placement_sum(checkers@) <= self.spec_header().max_checkers,
        ensures
            values@ == record_values(
                self.bytes_view(),
                finish_start(self.spec_header(), rank_from(self.spec_header().max_checkers as nat, checkers@) as int),
                self.spec_header().max_finish_len as int,
            ),
            values@.len() == self.spec_header().max_finish_len,
            // The record of the placement ranked `r` is the `r`-th of the finish section,
            // right after the header; value `j` is stored little-endian at its `j`-th pair
            // of bytes.
            forall|j: int|
                0 <= j < values@.len() ==> #[trigger] values@[j] == self.bytes_view()[HEADER_LEN + (rank_from(
                    self.spec_header().max_checkers as nat,
                    checkers@,
                ) * self.spec_header().max_finish_len + j) * 2] + 256 * self.bytes_view()[HEADER_LEN + (rank_from(
                    self.spec_header().max_checkers as nat,
                    checkers@,
                ) * self.spec_header().max_finish_len + j) * 2 + 1],
    {
        proof {
            use_type_invariant(self);
            lemma_rank_below_count(MAX_CHECKERS as nat, checkers@);
            lemma_bearoff_counts();
        }
        let len = self.bytes.len();
        let r = rank(self.header.max_checkers, checkers);
        proof {
            lemma_finish_record_inside(self.header, len as int, r as int);
        }
        let record_len = self.header.max_finish_len as usize * 2;
        assert(r * record_len == r * self.header.max_finish_len * 2) by (nonlinear_arith)
            requires
                record_len == self.header.max_finish_len * 2,
        ;
        let start = HEADER_LEN + r * record_len;
        let values = decode_record(self.bytes, start, self.header.max_finish_len as usize);
        proof {
            lemma_record_values_bytes(self.bytes@, start as int, self.header.max_finish_len as int);
        }
        values
    }

    /// The quantized `first_off` distribution for `checkers`, or `None` if a checker is
    /// already off (checkers don't sum to `max_checkers`), where the value is the known
    /// constant "already saved" rather than a stored record.
    pub fn first_off_quantized(&self, checkers: [u8; POINTS]) -> (values: Option<Vec<u16>>)
        ensures
            values is None <==> placement_sum(checkers@) != self.spec_header().max_checkers,
            values matches Some(v) ==> v@ == record_values(
                self.bytes_view(),
                first_off_start(self.spec_header(), first_off_index(checkers@)),
                self.spec_header().max_first_off_len as int,
            ),
            values matches Some(v) ==> v@.len() == self.spec_header().max_first_off_len,
            // The record of a placement with no checker off is the `d`-th of the first-off
            // section, which follows the whole finish section, where `d` ranks the placement's
            // first `POINTS - 1` counts; value `j` is stored little-endian at its `j`-th pair
            // of bytes.
            values matches Some(v) ==> forall|j: int|
                0 <= j < v@.len() ==> #[trigger] v@[j] == self.bytes_view()[HEADER_LEN
                    + self.spec_header().finish_count * self.spec_header().max_finish_len * 2 + (rank_from(
                    self.spec_header().max_checkers as nat,
                    checkers@.take(POINTS - 1),
                ) * self.spec_header().max_first_off_len + j) * 2] + 256 * self.bytes_view()[HEADER_LEN
                    + self.spec_header().finish_count * self.spec_header().max_finish_len * 2 + (rank_from(
                    self.spec_header().max_checkers as nat,
                    checkers@.take(POINTS - 1),
                ) * self.spec_header().max_first_off_len + j) * 2 + 1],
    {
        proof {
            use_type_invariant(self);
            lemma_bearoff_counts();
        }
        let mut total: u32 = 0;
        let mut i: usize = 0;
        proof {
            assert(checkers@.take(0) =~= Seq::<u8>::empty());
        }
        while i < POINTS
            invariant
                i <= POINTS,
                total == placement_sum(checkers@.take(i as int)),
                total <= 255 * i,
            decreases POINTS - i,
        {
            proof {
                lemma_placement_sum_push(checkers@.take(i as int), checkers@[i as int]);
                assert(checkers@.take(i as int).push(checkers@[i as int]) =~= checkers@.take(i + 1));
            }
            total = total + checkers[i] as u32;
            i = i + 1;
        }
        assert(checkers@.take(6) =~= checkers@);
        if total != self.header.max_checkers as u32 {
            return None;
        }
        let prefix: [u8; 5] = [checkers[0], checkers[1], checkers[2], checkers[3], checkers[4]];
        assert(prefix@ =~= checkers@.take(5));
        proof {
            lemma_placement_sum_prefix_bound(checkers@, 5);
            lemma_rank_below_count(MAX_CHECKERS as nat, prefix@);
        }
        let len = self.bytes.len();
        let dense = rank(self.header.max_checkers, prefix);
        proof {
            lemma_first_off_record_inside(self.header, len as int, dense as int);
        }
        let record_len = self.header.max_first_off_len as usize * 2;
        let finish_section_len = self.header.finish_count as usize * self.header.max_finish_len as usize * 2;
        assert(dense * record_len == dense * self.header.max_first_off_len * 2) by (nonlinear_arith)
            requires
                record_len == self.header.max_first_off_len * 2,
        ;
        let start = HEADER_LEN + finish_section_len + dense * record_len;
        let values = decode_record(self.bytes, start, self.header.max_first_off_len as usize);
        proof {
            lemma_record_values_bytes(self.bytes@, start as int, self.header.max_first_off_len as int);
        }
        Some(values)
    }

    /// The parsed header.
    pub fn header(&self) -> (h: Header)
        ensures
            h == self.spec_header(),
    {
        self.header
    }
}

/// The `n` little-endian `u16` values stored from byte `start` on.
fn decode_record(bytes: &[u8], start: usize, n: usize) -> (values: Vec<u16>)
    requires
        start + 2 * n <= bytes@.len(),
    ensures
        values@ == record_values(bytes@, start as int, n as int),
{
    let mut values: Vec<u16> = Vec::new();
    let mut j: usize = 0;
    let len = bytes.len();
    while j < n
        invariant
            j <= n,
            len == bytes@.len(),
            start + 2 * n <= bytes@.len(),
            values@ =~= record_values(bytes@, start as int, j as int),
        decreases n - j,
    {
        values.push(read_u16(bytes, start + 2 * j));
        j = j + 1;
    }
    values
}

/// The little-endian `u16` at `at`.
fn read_u16(bytes: &[u8], at: usize) -> (v: u16)
    requires
        at + 2 <= bytes@.len(),
    ensures
        v == le_u16(bytes@[at as int], bytes@[at + 1]),
{
    bytes[at] as u16 + bytes[at + 1] as u16 * 256
}

/// The little-endian `u32` at `at`.
fn read_u32(bytes: &[u8], at: usize) -> (v: u32)
    requires
        at + 4 <= bytes@.len(),
    ensures
        v == le_u32(bytes@[at as int], bytes@[at + 1], bytes@[at + 2], bytes@[at + 3]),
{
    bytes[at] as u32 + bytes[at + 1] as u32 * 256 + bytes[at + 2] as u32 * 65536 + bytes[at + 3] as u32
        * 16777216
}


/// The little-endian bytes of a `u16`.
pub open spec fn le_u16_bytes(v: u16) -> Seq<u8> {
    seq![(v % 256) as u8, (v / 256) as u8]
}

/// The little-endian bytes of a `u32`.
pub open spec fn le_u32_bytes(v: u32) -> Seq<u8> {
    seq![(v % 256) as u8, ((v / 256) % 256) as u8, ((v / 65536) % 256) as u8, (v / 16777216) as u8]
}

/// The 20 header bytes that describe `h`.
pub open spec fn header_bytes(h: Header) -> Seq<u8> {
    seq![79u8, 71u8, 66u8, 49u8] + le_u16_bytes(FORMAT_VERSION) + seq![h.points, h.max_checkers] + le_u16_bytes(
        h.max_finish_len,
    ) + le_u16_bytes(h.max_first_off_len) + le_u32_bytes(h.finish_count) + le_u32_bytes(h.first_off_count)
}

/// The `j`-th value of `rec` zero-padded to any width.
pub open spec fn padded_value(rec: Seq<u16>, j: int) -> u16 {
    if 0 <= j < rec.len() {
        rec[j]
    } else {
        0
    }
}

/// `rec` zero-padded (or cut) to `width` values.
pub open spec fn padded_record(rec: Seq<u16>, width: nat) -> Seq<u16> {
    Seq::new(width, |j: int| padded_value(rec, j))
}

/// The stored bytes of `rec` zero-padded to `width` values.
pub open spec fn record_bytes(rec: Seq<u16>, width: nat) -> Seq<u8> {
    Seq::new(
        2 * width,
        |k: int|
            if k % 2 == 0 {
                (padded_value(rec, k / 2) % 256) as u8
            } else {
                (padded_value(rec, k / 2) / 256) as u8
            },
    )
}

/// The stored bytes of consecutive records, each zero-padded to `width` values.
pub open spec fn records_bytes(recs: Seq<Seq<u16>>, width: nat) -> Seq<u8>
    decreases recs.len(),
{
    if recs.len() == 0 {
        Seq::empty()
    } else {
        records_bytes(recs.drop_last(), width) + record_bytes(recs.last(), width)
    }
}

/// The length of the longest record.
pub open spec fn longest(recs: Seq<Seq<u16>>) -> nat
    decreases recs.len(),
{
    if recs.len() == 0 {
        0
    } else if recs.last().len() > longest(recs.drop_last()) {
        recs.last().len()
    } else {
        longest(recs.drop_last())
    }
}

/// The full placement whose first `POINTS - 1` counts are `prefix` and whose last point
/// holds the rest of `MAX_CHECKERS`.
pub open spec fn full_placement(prefix: Seq<u8>) -> Seq<u8> {
    prefix.push((MAX_CHECKERS - placement_sum(prefix)) as u8)
}

/// The rank of the position whose first-off record has dense index `d`.
pub open spec fn first_off_source(d: nat) -> int {
    rank_from(MAX_CHECKERS as nat, full_placement(placement_of_rank((POINTS - 1) as nat, MAX_CHECKERS as nat, d))) as int
}

/// The first-off records in file order: one per position with no checker off.
pub open spec fn first_off_records(first_off: Seq<Seq<u16>>) -> Seq<Seq<u16>> {
    Seq::new(count_spec((POINTS - 1) as nat, MAX_CHECKERS as nat), |d: int| first_off[first_off_source(d as nat)])
}

/// The header of a file written from these records.
pub open spec fn table_header(finish: Seq<Seq<u16>>, first_off: Seq<Seq<u16>>) -> Header {
    Header {
        points: POINTS as u8,
        max_checkers: MAX_CHECKERS,
        max_finish_len: longest(finish) as u16,
        max_first_off_len: longest(first_off) as u16,
        finish_count: finish.len() as u32,
        first_off_count: count_spec((POINTS - 1) as nat, MAX_CHECKERS as nat) as u32,
    }
}

/// The bytes of a file written from these records: the header, every `finish` record in
/// rank order, then the `first_off` records of the positions with no checker off.
pub open spec fn table_bytes(finish: Seq<Seq<u16>>, first_off: Seq<Seq<u16>>) -> Seq<u8> {
    header_bytes(table_header(finish, first_off)) + records_bytes(finish, longest(finish)) + records_bytes(
        first_off_records(first_off),
        longest(first_off),
    )
}

/// The contents of each record.
pub open spec fn record_views(records: Seq<Vec<u16>>) -> Seq<Seq<u16>> {
    records.map_values(|r: Vec<u16>| r@)
}

fn push_u16(out: &mut Vec<u8>, v: u16)
    ensures
        final(out)@ == old(out)@ + le_u16_bytes(v),
{
    out.push((v % 256) as u8);
    out.push((v / 256) as u8);
    assert(final(out)@ =~= old(out)@ + le_u16_bytes(v));
}

fn push_u32(out: &mut Vec<u8>, v: u32)
    ensures
        final(out)@ == old(out)@ + le_u32_bytes(v),
{
    out.push((v % 256) as u8);
    out.push(((v / 256) % 256) as u8);
    out.push(((v / 65536) % 256) as u8);
    out.push((v / 16777216) as u8);
    assert(final(out)@ =~= old(out)@ + le_u32_bytes(v));
}

/// Appends `quantized`, zero-padded to `target_len` values.
fn write_padded_record(out: &mut Vec<u8>, quantized: &Vec<u16>, target_len: usize)
    ensures
        final(out)@ == old(out)@ + record_bytes(quantized@, target_len as nat),
{
    let ghost start = out@;
    let mut i: usize = 0;
    while i < target_len
        invariant
            i <= target_len,
            out@.len() == start.len() + 2 * i,
            forall|k: int| 0 <= k < start.len() ==> out@[k] == start[k],
            forall|k: int| 0 <= k < 2 * i ==> out@[start.len() + k] == record_bytes(quantized@, target_len as nat)[k],
        decreases target_len - i,
    {
        let v: u16 = if i < quantized.len() {
            quantized[i]
        } else {
            0
        };
        assert(v == padded_value(quantized@, i as int));
        out.push((v % 256) as u8);
        out.push((v / 256) as u8);
        assert((2 * i) / 2 == i && (2 * i) % 2 == 0);
        assert((2 * i + 1) / 2 == i && (2 * i + 1) % 2 == 1);
        i = i + 1;
    }
    assert(out@ =~= start + record_bytes(quantized@, target_len as nat));
}

fn longest_record(records: &Vec<Vec<u16>>) -> (n: usize)
    ensures
        n == longest(record_views(records@)),
{
    let mut n: usize = 0;
    let mut i: usize = 0;
    while i < records.len()
        invariant
            i <= records@.len(),
            n == longest(record_views(records@).take(i as int)),
        decreases records@.len() - i,
    {
        assert(record_views(records@).take(i + 1).drop_last() =~= record_views(records@).take(i as int));
        if records[i].len() > n {
            n = records[i].len();
        }
        i = i + 1;
    }
    assert(record_views(records@).take(i as int) =~= record_views(records@));
    n
}

/// The bytes of a bearoff database file holding these quantized records: `finish[r]` and
/// `first_off[r]` belong to the position of rank `r`. Only the positions with no checker
/// off get a first-off record.
pub fn encode_table(finish: &Vec<Vec<u16>>, first_off: &Vec<Vec<u16>>) -> (bytes: Vec<u8>)
    requires
        first_off@.len() >= count_spec(POINTS as nat, MAX_CHECKERS as nat),
    ensures
        bytes@ == table_bytes(record_views(finish@), record_views(first_off@)),
{
    proof {
        lemma_bearoff_counts();
    }
    let ghost fin = record_views(finish@);
    let ghost fo = record_views(first_off@);
    let ghost h = table_header(fin, fo);
    let max_finish_len = longest_record(finish);
    let max_first_off_len = longest_record(first_off);
    let first_off_count = count(POINTS - 1, MAX_CHECKERS);
    let mut out: Vec<u8> = Vec::new();
    out.push(79u8);
    out.push(71u8);
    out.push(66u8);
    out.push(49u8);
    push_u16(&mut out, FORMAT_VERSION);
    out.push(POINTS as u8);
    out.push(MAX_CHECKERS);
    push_u16(&mut out, max_finish_len as u16);
    push_u16(&mut out, max_first_off_len as u16);
    push_u32(&mut out, finish.len() as u32);
    push_u32(&mut out, first_off_count as u32);
    assert(out@ =~= header_bytes(h));
    let mut i: usize = 0;
    while i < finish.len()
        invariant
            i <= finish@.len(),
            fin == record_views(finish@),
            max_finish_len == longest(fin),
            out@ == header_bytes(h) + records_bytes(fin.take(i as int), longest(fin)),
        decreases finish@.len() - i,
    {
        assert(fin.take(i + 1).drop_last() =~= fin.take(i as int));
        write_padded_record(&mut out, &finish[i], max_finish_len);
        i = i + 1;
    }
    assert(fin.take(i as int) =~= fin);
    let ghost recs = first_off_records(fo);
    assert(recs.take(0) =~= Seq::<Seq<u16>>::empty());
    let mut dense: usize = 0;
    while dense < first_off_count
        invariant
            dense <= first_off_count,
            first_off_count == 15504,
            count_spec(5, 15) == 15504,
            count_spec(6, 15) == 54264,
            first_off@.len() >= 54264,
            fo == record_views(first_off@),
            recs == first_off_records(fo),
            max_first_off_len == longest(fo),
            out@ == header_bytes(h) + records_bytes(fin, longest(fin)) + records_bytes(
                recs.take(dense as int),
                longest(fo),
            ),
        decreases first_off_count - dense,
    {
        let prefix: [u8; 5] = unrank(MAX_CHECKERS, dense);
        let prefix_sum: u32 = prefix[0] as u32 + prefix[1] as u32 + prefix[2] as u32 + prefix[3] as u32
            + prefix[4] as u32;
        proof {
            lemma_placement_sum_five(prefix@);
        }
        let checkers: [u8; POINTS] = [
            prefix[0],
            prefix[1],
            prefix[2],
            prefix[3],
            prefix[4],
            (MAX_CHECKERS as u32 - prefix_sum) as u8,
        ];
        assert(checkers@ =~= full_placement(prefix@));
        proof {
            lemma_placement_sum_push(prefix@, checkers@[5]);
            lemma_rank_below_count(MAX_CHECKERS as nat, checkers@);
        }
        let r = rank(MAX_CHECKERS, checkers);
        assert(recs.take(dense + 1).drop_last() =~= recs.take(dense as int));
        assert(recs[dense as int] == fo[r as int]);
        write_padded_record(&mut out, &first_off[r], max_first_off_len);
        dense = dense + 1;
    }
    assert(recs.take(dense as int) =~= recs);
    out
}

proof fn lemma_placement_sum_five(s: Seq<u8>)
    requires
        s.len() == 5,
    ensures
        placement_sum(s) == s[0] + s[1] + s[2] + s[3] + s[4],
{
    let s1 = s.drop_first();
    let s2 = s1.drop_first();
    let s3 = s2.drop_first();
    let s4 = s3.drop_first();
    let s5 = s4.drop_first();
    assert(s5.len() == 0);
    assert(placement_sum(s5) == 0);
    assert(placement_sum(s4) == s[4]);
    assert(placement_sum(s3) == s[3] + s[4]);
    assert(placement_sum(s2) == s[2] + s[3] + s[4]);
    assert(placement_sum(s1) == s[1] + s[2] + s[3] + s[4]);
}


proof fn lemma_records_bytes_len(recs: Seq<Seq<u16>>, width: nat)
    ensures
        records_bytes(recs, width).len() == recs.len() * (2 * width),
    decreases recs.len(),
{
    if recs.len() > 0 {
        lemma_records_bytes_len(recs.drop_last(), width);
        let n = recs.len();
        assert((n - 1) * (2 * width) + 2 * width == n * (2 * width)) by (nonlinear_arith);
    }
}

proof fn lemma_records_bytes_index(recs: Seq<Seq<u16>>, width: nat, r: int, k: int)
    requires
        0 <= r < recs.len(),
        0 <= k < 2 * width,
    ensures
        0 <= r * (2 * width) + k < records_bytes(recs, width).len(),
        records_bytes(recs, width)[r * (2 * width) + k] == record_bytes(recs[r], width)[k],
    decreases recs.len(),
{
    let n = recs.len();
    let w2 = 2 * width;
    lemma_records_bytes_len(recs, width);
    lemma_records_bytes_len(recs.drop_last(), width);
    assert(0 <= r * w2) by (nonlinear_arith)
        requires
            r >= 0,
            w2 >= 0,
    ;
    assert(r * w2 + k < n * w2) by (nonlinear_arith)
        requires
            r < n,
            k < w2,
    ;
    if r < n - 1 {
        lemma_records_bytes_index(recs.drop_last(), width, r, k);
        assert(recs.drop_last()[r] == recs[r]);
    } else {
        assert(r * w2 == (n - 1) * w2);
    }
}

proof fn lemma_le_u16_round_trip(v: u16)
    ensures
        le_u16((v % 256) as u8, (v / 256) as u8) == v,
{
}

proof fn lemma_le_u32_round_trip(v: u32)
    ensures
        le_u32((v % 256) as u8, ((v / 256) % 256) as u8, ((v / 65536) % 256) as u8, (v / 16777216) as u8) == v,
{
    let b0 = v % 256;
    let b1 = (v / 256) % 256;
    let b2 = (v / 65536) % 256;
    let b3 = v / 16777216;
    assert(b0 + 256 * b1 + 65536 * b2 + 16777216 * b3 == v) by (bit_vector)
        requires
            b0 == v % 256,
            b1 == (v / 256) % 256,
            b2 == (v / 65536) % 256,
            b3 == v / 16777216,
    ;
}

/// Reading back a record from bytes that hold its stored form gives the padded record.
proof fn lemma_record_read_back(bytes: Seq<u8>, start: int, rec: Seq<u16>, width: nat)
    requires
        0 <= start,
        start + 2 * width <= bytes.len(),
        forall|k: int| 0 <= k < 2 * width ==> bytes[start + k] == #[trigger] record_bytes(rec, width)[k],
    ensures
        record_values(bytes, start, width as int) == padded_record(rec, width),
{
    assert forall|j: int| 0 <= j < width implies #[trigger] record_values(bytes, start, width as int)[j] == padded_record(rec, width)[j] by {
        let v = padded_value(rec, j);
        assert((2 * j) % 2 == 0 && (2 * j) / 2 == j);
        assert((2 * j + 1) % 2 == 1 && (2 * j + 1) / 2 == j);
        assert(bytes[start + 2 * j] == record_bytes(rec, width)[2 * j]);
        assert(bytes[start + (2 * j + 1)] == record_bytes(rec, width)[2 * j + 1]);
        lemma_le_u16_round_trip(v);
    }
    assert(record_values(bytes, start, width as int) =~= padded_record(rec, width));
}

proof fn lemma_header_read_back(h: Header, rest: Seq<u8>)
    ensures
        (header_bytes(h) + rest).len() == 20 + rest.len(),
        magic_ok(header_bytes(h) + rest),
        le_u16((header_bytes(h) + rest)[4], (header_bytes(h) + rest)[5]) == FORMAT_VERSION,
        header_of(header_bytes(h) + rest) == h,
{
    let b = header_bytes(h) + rest;
    assert(header_bytes(h).len() == 20);
    lemma_le_u16_round_trip(FORMAT_VERSION);
    lemma_le_u16_round_trip(h.max_finish_len);
    lemma_le_u16_round_trip(h.max_first_off_len);
    lemma_le_u32_round_trip(h.finish_count);
    lemma_le_u32_round_trip(h.first_off_count);
    assert(b[4] == (FORMAT_VERSION % 256) as u8 && b[5] == (FORMAT_VERSION / 256) as u8);
    assert(b[6] == h.points && b[7] == h.max_checkers);
    assert(b[8] == (h.max_finish_len % 256) as u8 && b[9] == (h.max_finish_len / 256) as u8);
    assert(b[10] == (h.max_first_off_len % 256) as u8 && b[11] == (h.max_first_off_len / 256) as u8);
    assert(b[12] == (h.finish_count % 256) as u8);
    assert(b[13] == ((h.finish_count / 256) % 256) as u8);
    assert(b[14] == ((h.finish_count / 65536) % 256) as u8);
    assert(b[15] == (h.finish_count / 16777216) as u8);
    assert(b[16] == (h.first_off_count % 256) as u8);
    assert(b[17] == ((h.first_off_count / 256) % 256) as u8);
    assert(b[18] == ((h.first_off_count / 65536) % 256) as u8);
    assert(b[19] == (h.first_off_count / 16777216) as u8);
}


/// Reading a file written from records gives back what was written: the file parses, its
/// header describes the records, and the finish record of every placement, and the
/// first-off record of every placement with no checker off, read back as the record that
/// was stored for its rank, zero-padded to the longest.
pub proof fn lemma_table_round_trip(finish: Seq<Seq<u16>>, first_off: Seq<Seq<u16>>, checkers: Seq<u8>)
    requires
        finish.len() >= count_spec(POINTS as nat, MAX_CHECKERS as nat),
        first_off.len() >= count_spec(POINTS as nat, MAX_CHECKERS as nat),
        finish.len() <= u32::MAX,
        longest(finish) <= u16::MAX,
        longest(first_off) <= u16::MAX,
        checkers.len() == POINTS,
        placement_sum(checkers) <= MAX_CHECKERS,
    ensures
        ({
            let bytes = table_bytes(finish, first_off);
            let h = table_header(finish, first_off);
            let r = rank_from(MAX_CHECKERS as nat, checkers) as int;
            &&& parse_spec(bytes) == Ok::<Header, FormatError>(h)
            &&& finish_start(h, r) + h.max_finish_len * 2 <= bytes.len()
            &&& record_values(bytes, finish_start(h, r), h.max_finish_len as int) == padded_record(
                finish[r],
                longest(finish),
            )
            &&& placement_sum(checkers) == MAX_CHECKERS ==> {
                &&& first_off_start(h, first_off_index(checkers)) + h.max_first_off_len * 2 <= bytes.len()
                &&& record_values(bytes, first_off_start(h, first_off_index(checkers)), h.max_first_off_len as int)
                    == padded_record(first_off[r], longest(first_off))
            }
        }),
{
    lemma_bearoff_counts();
    let mf = longest(finish);
    let mo = longest(first_off);
    let n = finish.len();
    let h = table_header(finish, first_off);
    let hb = header_bytes(h);
    let recs = first_off_records(first_off);
    let fb = records_bytes(finish, mf);
    let ob = records_bytes(recs, mo);
    let bytes = table_bytes(finish, first_off);
    assert(bytes =~= hb + (fb + ob));
    lemma_header_read_back(h, fb + ob);
    lemma_records_bytes_len(finish, mf);
    lemma_records_bytes_len(recs, mo);
    assert(h.max_finish_len == mf);
    assert(h.max_first_off_len == mo);
    assert(h.finish_count == n);
    assert(h.first_off_count == 15504);
    assert(n * mf * 2 == n * (2 * mf)) by (nonlinear_arith);
    assert(15504 * mo * 2 == 15504 * (2 * mo)) by (nonlinear_arith);
    assert(expected_len(h) == bytes.len());
    assert(54264 * mf <= n * mf) by (nonlinear_arith)
        requires
            54264 <= n,
    ;
    assert(lookup_len(h) <= bytes.len());
    assert(parse_spec(bytes) == Ok::<Header, FormatError>(h));
    let r = rank_from(MAX_CHECKERS as nat, checkers) as int;
    lemma_rank_below_count(MAX_CHECKERS as nat, checkers);
    assert((r + 1) * (2 * mf) <= n * (2 * mf)) by (nonlinear_arith)
        requires
            r + 1 <= n,
    ;
    assert(r * mf * 2 == r * (2 * mf)) by (nonlinear_arith);
    assert((r + 1) * (2 * mf) == r * (2 * mf) + 2 * mf) by (nonlinear_arith);
    assert forall|k: int| 0 <= k < 2 * mf implies bytes[finish_start(h, r) + k] == #[trigger] record_bytes(finish[r], mf)[k] by {
        lemma_records_bytes_index(finish, mf, r, k);
        assert(bytes[20 + (r * (2 * mf) + k)] == fb[r * (2 * mf) + k]);
    }
    lemma_record_read_back(bytes, finish_start(h, r), finish[r], mf);
    if placement_sum(checkers) == MAX_CHECKERS {
        let prefix = checkers.take(POINTS - 1);
        lemma_placement_sum_prefix_bound(checkers, 5);
        lemma_rank_below_count(MAX_CHECKERS as nat, prefix);
        lemma_rank_then_placement(MAX_CHECKERS as nat, prefix);
        lemma_placement_sum_push(prefix, checkers[5]);
        assert(prefix.push(checkers[5]) =~= checkers);
        assert(full_placement(prefix) =~= checkers);
        let dn = first_off_index(checkers);
        assert(first_off_source(dn as nat) == r);
        assert(recs[dn] == first_off[r]);
        assert((dn + 1) * (2 * mo) <= 15504 * (2 * mo)) by (nonlinear_arith)
            requires
                dn + 1 <= 15504,
        ;
        assert(dn * mo * 2 == dn * (2 * mo)) by (nonlinear_arith);
        assert((dn + 1) * (2 * mo) == dn * (2 * mo) + 2 * mo) by (nonlinear_arith);
        assert forall|k: int| 0 <= k < 2 * mo implies bytes[first_off_start(h, dn) + k] == #[trigger] record_bytes(first_off[r], mo)[k] by {
            lemma_records_bytes_index(recs, mo, dn, k);
            assert(bytes[20 + (fb.len() + (dn * (2 * mo) + k))] == ob[dn * (2 * mo) + k]);
        }
        lemma_record_read_back(bytes, first_off_start(h, dn), first_off[r], mo);
    }
}

/// Where the encoder puts each record, byte by byte: the file parses with a header that
/// records the table's shape, the finish record of the placement ranked `r` is the `r`-th
/// record after the 20-byte header, and the first-off record of a placement with no checker
/// off is, after the whole finish section, the one numbered by the rank of the placement's
/// first `POINTS - 1` counts; each record holds its values little-endian, zero-padded to
/// the longest record of its section.
pub proof fn lemma_table_layout(finish: Seq<Seq<u16>>, first_off: Seq<Seq<u16>>, checkers: Seq<u8>)
    requires
        finish.len() >= count_spec(POINTS as nat, MAX_CHECKERS as nat),
        first_off.len() >= count_spec(POINTS as nat, MAX_CHECKERS as nat),
        finish.len() <= u32::MAX,
        longest(finish) <= u16::MAX,
        longest(first_off) <= u16::MAX,
        checkers.len() == POINTS,
        placement_sum(checkers) <= MAX_CHECKERS,
    ensures
        ({
            let bytes = table_bytes(finish, first_off);
            let mf = longest(finish);
            let mo = longest(first_off);
            let r = rank_from(MAX_CHECKERS as nat, checkers);
            let d = rank_from(MAX_CHECKERS as nat, checkers.take(POINTS - 1));
            &&& parse_spec(bytes) == Ok::<Header, FormatError>(
                Header {
                    points: 6,
                    max_checkers: 15,
                    max_finish_len: mf as u16,
                    max_first_off_len: mo as u16,
                    finish_count: finish.len() as u32,
                    first_off_count: 15504,
                },
            )
            &&& forall|j: int|
                0 <= j < mf ==> #[trigger] bytes[HEADER_LEN + (r * mf + j) * 2] + 256 * bytes[HEADER_LEN + (r * mf + j)
                    * 2 + 1] == if j < finish[r as int].len() {
                    finish[r as int][j] as int
                } else {
                    0
                }
            &&& placement_sum(checkers) == MAX_CHECKERS ==> forall|j: int|
                0 <= j < mo ==> #[trigger] bytes[HEADER_LEN + finish.len() * mf * 2 + (d * mo + j) * 2] + 256
                    * bytes[HEADER_LEN + finish.len() * mf * 2 + (d * mo + j) * 2 + 1] == if j
                    < first_off[r as int].len() {
                    first_off[r as int][j] as int
                } else {
                    0
                }
        }),
{
    lemma_bearoff_counts();
    lemma_table_round_trip(finish, first_off, checkers);
    let bytes = table_bytes(finish, first_off);
    let h = table_header(finish, first_off);
    let r = rank_from(MAX_CHECKERS as nat, checkers) as int;
    let mf = longest(finish);
    let mo = longest(first_off);
    lemma_record_values_bytes(bytes, finish_start(h, r), mf as int);
    assert forall|j: int| 0 <= j < mf implies #[trigger] bytes[HEADER_LEN + (r * mf + j) * 2] + 256 * bytes[HEADER_LEN
        + (r * mf + j) * 2 + 1] == if j < finish[r].len() {
        finish[r][j] as int
    } else {
        0
    } by {
        assert(record_values(bytes, finish_start(h, r), mf as int)[j] == padded_record(finish[r], mf)[j]);
    }
    if placement_sum(checkers) == MAX_CHECKERS {
        let start = first_off_start(h, first_off_index(checkers));
        lemma_record_values_bytes(bytes, start, mo as int);
        assert forall|j: int| 0 <= j < mo implies #[trigger] bytes[HEADER_LEN + finish.len() * mf * 2 + (
        first_off_index(checkers) * mo + j) * 2] + 256 * bytes[HEADER_LEN + finish.len() * mf * 2 + (
        first_off_index(checkers) * mo + j) * 2 + 1] == if j < first_off[r].len() {
            first_off[r][j] as int
        } else {
            0
        } by {
            assert(record_values(bytes, start, mo as int)[j] == padded_record(first_off[r], mo)[j]);
        }
    }
}

} // verus!
