//! The chunking/streaming engine: splits a byte buffer into an ordered
//! sequence of packages bounded by a configurable maximum size, drives
//! them across an in-memory transport with a continuation marker, and
//! emits throttled progress reports.
//!
//! Wire layout of a package stream: one byte holding the batch-size code,
//! then each package frame followed by one continuation byte (`1` while
//! more packages follow, `0` after the last).  The receiving side answers
//! with a single acknowledgement byte once the last frame arrived.

use crate::errors::TransferError;
use crate::package::package_uuid::{
    is_meta_uuid, new_uuid, ENCRYPTION_UNENCRYPTED, TYPE_MARKER_PACKAGE,
};
use crate::package::{frame_bytes, Package, PackageSize};
use crate::utils::{
    copy_range, lemma_le_bytes_len, lemma_pow256_values, lemma_wire_decode_bound,
    lemma_wire_round_trip, u8_bytes_to_usize, wire_decode, wire_encode,
};
use vstd::arithmetic::div_mod::{lemma_fundamental_div_mod, lemma_fundamental_div_mod_converse};
use vstd::prelude::*;

verus! {

/// A snapshot of the transfer's progress, handed to the observer.
#[derive(Clone, Copy, Debug, PartialEq, Eq, Structural)]
pub struct PackagesReport {
    /// Packages written so far.
    pub sent: usize,
    /// Packages the whole transfer consists of.
    pub total: usize,
    /// Payload bytes written so far.
    pub bytes_sent: usize,
    /// Payload bytes of the whole transfer.
    pub total_bytes: usize,
}

/// Throttles progress reports by skipping all but every so-many-th one.
///
/// The fraction of the total package count between two reports: nothing
/// skipped, every 1%, every 5%, every 10%, or every 15%.
#[derive(Clone, Copy, Debug, PartialEq, Eq, Structural)]
pub enum PackageReportSpeed {
    FASTEST,
    FAST,
    STEADY,
    SLOW,
    SLOWEST,
}

impl Default for PackageReportSpeed {
    /// The default report speed.
    fn default() -> (r: Self)
        ensures
            r == PackageReportSpeed::STEADY,
    {
        PackageReportSpeed::STEADY
    }
}

/// `n / d` rounded towards the ceiling.
pub open spec fn div_ceil(n: nat, d: nat) -> nat
    recommends
        1 <= d,
{
    ((n + d - 1) / (d as int)) as nat
}

/// How many packages lie between two progress reports of a transfer of
/// `total` packages: the speed's fraction of the total, rounded up, and
/// clamped to at least one.
pub open spec fn report_interval(speed: PackageReportSpeed, total: nat) -> nat {
    let raw = match speed {
        PackageReportSpeed::FASTEST => 1,
        PackageReportSpeed::FAST => div_ceil(total, 100),
        PackageReportSpeed::STEADY => div_ceil(total, 20),
        PackageReportSpeed::SLOW => div_ceil(total, 10),
        PackageReportSpeed::SLOWEST => div_ceil(3 * total, 20),
    };
    if raw == 0 {
        1
    } else {
        raw
    }
}

/// Rounding up is dividing after adding `d - 1`: the quotient, plus one
/// exactly when the division leaves a remainder.
proof fn lemma_div_ceil(n: nat, d: nat)
    requires
        1 <= d,
    ensures
        div_ceil(n, d) == n / d + (if n % d == 0 {
            0int
        } else {
            1int
        }),
{
    let q = n as int / d as int;
    let r = n as int % d as int;
    lemma_fundamental_div_mod(n as int, d as int);
    if r == 0 {
        assert(n + d - 1 == q * (d as int) + (d - 1)) by (nonlinear_arith)
            requires
                n == (d as int) * q + r,
                r == 0,
        ;
        lemma_fundamental_div_mod_converse(n + d - 1, d as int, q, d - 1);
    } else {
        assert(n + d - 1 == (q + 1) * (d as int) + (r - 1)) by (nonlinear_arith)
            requires
                n == (d as int) * q + r,
        ;
        lemma_fundamental_div_mod_converse(n + d - 1, d as int, q + 1, r - 1);
    }
}

impl PackageReportSpeed {
    /// The report interval for a transfer of `value` packages.
    pub fn apply_multiplier(&self, value: usize) -> (r: usize)
        ensures
            r as nat == report_interval(*self, value as nat),
            1 <= r,
    {
        let raw: usize = match self {
            PackageReportSpeed::FASTEST => 1,
            PackageReportSpeed::FAST => {
                proof {
                    lemma_div_ceil(value as nat, 100);
                    lemma_fundamental_div_mod(value as int, 100);
                }
                value / 100 + (if value % 100 != 0 {
                    1
                } else {
                    0
                })
            },
            PackageReportSpeed::STEADY => {
                proof {
                    lemma_div_ceil(value as nat, 20);
                    lemma_fundamental_div_mod(value as int, 20);
                }
                value / 20 + (if value % 20 != 0 {
                    1
                } else {
                    0
                })
            },
            PackageReportSpeed::SLOW => {
                proof {
                    lemma_div_ceil(value as nat, 10);
                    lemma_fundamental_div_mod(value as int, 10);
                }
                value / 10 + (if value % 10 != 0 {
                    1
                } else {
                    0
                })
            },
            PackageReportSpeed::SLOWEST => {
                proof {
                    lemma_fundamental_div_mod(value as int, 20);
                    lemma_slowest_interval(value as nat);
                }
                3 * (value / 20) + (3 * (value % 20) + 19) / 20
            },
        };
        if raw == 0 {
            1
        } else {
            raw
        }
    }
}

/// The slowest speed's interval, computed without overflowing: three
/// times the quotient by twenty, plus the rounded-up scaled remainder,
/// is the ceiling of three twentieths.
proof fn lemma_slowest_interval(v: nat)
    ensures
        3 * (v / 20) + (3 * (v % 20) + 19) / 20 == div_ceil(3 * v, 20),
        3 * (v / 20) + (3 * (v % 20) + 19) / 20 <= (if v / 20 >= 1 {
            20 * ((v / 20) as int)
        } else {
            3int
        }),
{
    let q = v as int / 20;
    let r = v as int % 20;
    lemma_fundamental_div_mod(v as int, 20);
    assert(3 * v == 20 * (3 * q) + 3 * r) by (nonlinear_arith)
        requires
            v == 20 * q + r,
    ;
    let small = (3 * r + 19) / 20;
    assert(0 <= small <= 3) by {
        if r <= 0 {
            lemma_fundamental_div_mod_converse(3 * r + 19, 20int, 0, 19);
        } else if r <= 6 {
            lemma_fundamental_div_mod_converse(3 * r + 19, 20int, 1, 3 * r - 1);
        } else if r <= 13 {
            lemma_fundamental_div_mod_converse(3 * r + 19, 20int, 2, 3 * r - 21);
        } else {
            lemma_fundamental_div_mod_converse(3 * r + 19, 20int, 3, 3 * r - 41);
        }
    }
    assert((20 * (3 * q) + (3 * r + 19)) / 20 == 3 * q + small) by {
        lemma_fundamental_div_mod(3 * r + 19, 20int);
        lemma_fundamental_div_mod_converse(
            20 * (3 * q) + (3 * r + 19),
            20int,
            3 * q + small,
            (3 * r + 19) % 20,
        );
    }
    assert(3 * v + 19 == 20 * (3 * q) + (3 * r + 19));
    if q >= 1 {
        assert(3 * q + small <= 20 * q);
    }
}

/// How many packages are written between two required responses from the
/// receiving side.
#[derive(Clone, Copy, Debug, PartialEq, Eq, Structural)]
pub enum PackagesBatchSize {
    /// 1 package.
    TINY,
    /// 4 packages.
    SMALL,
    /// 16 packages.
    MEDIUM,
    /// 64 packages.
    LARGE,
    /// 255 packages.
    MAX,
}

/// Whether `code` is one of the five batch-size codes the wire accepts.
pub open spec fn is_valid_batch_code(code: u8) -> bool {
    code == 1 || code == 4 || code == 16 || code == 64 || code == 255
}

impl PackagesBatchSize {
    /// The single byte that announces this batch size on the wire.
    pub open spec fn batch_code(self) -> u8 {
        match self {
            PackagesBatchSize::TINY => 1,
            PackagesBatchSize::SMALL => 4,
            PackagesBatchSize::MEDIUM => 16,
            PackagesBatchSize::LARGE => 64,
            PackagesBatchSize::MAX => 255,
        }
    }

    /// The wire byte of this batch size.
    pub fn to_value(&self) -> (r: u8)
        ensures
            r == self.batch_code(),
            is_valid_batch_code(r),
    {
        match self {
            PackagesBatchSize::TINY => 1,
            PackagesBatchSize::SMALL => 4,
            PackagesBatchSize::MEDIUM => 16,
            PackagesBatchSize::LARGE => 64,
            PackagesBatchSize::MAX => 255,
        }
    }

    /// Reads a batch size back from its wire byte; exactly the five codes
    /// of the table are accepted.
    pub fn from_value(value: u8) -> (r: Result<Self, ()>)
        ensures
            r is Ok <==> is_valid_batch_code(value),
            r is Ok ==> r.unwrap().batch_code() == value,
    {
        match value {
            1 => Ok(PackagesBatchSize::TINY),
            4 => Ok(PackagesBatchSize::SMALL),
            16 => Ok(PackagesBatchSize::MEDIUM),
            64 => Ok(PackagesBatchSize::LARGE),
            255 => Ok(PackagesBatchSize::MAX),
            _ => Err(()),
        }
    }
}

impl Default for PackagesBatchSize {
    /// The default batch size.
    fn default() -> (r: Self)
        ensures
            r == PackagesBatchSize::MEDIUM,
    {
        PackagesBatchSize::MEDIUM
    }
}

/// The consecutive chunks of `data`, each of exactly `m` bytes, the final
/// chunk holding the remainder (up to and including `m` bytes; an exact
/// multiple gives a full final chunk, never an empty trailing one).
pub open spec fn chunks_of(data: Seq<u8>, m: nat) -> Seq<Seq<u8>>
    recommends
        1 <= m,
    decreases data.len(),
{
    if data.len() == 0 || m == 0 {
        Seq::empty()
    } else if data.len() <= m {
        seq![data]
    } else {
        seq![data.take(m as int)] + chunks_of(data.skip(m as int), m)
    }
}

/// Chunking: splitting a payload of any length at limit `m` yields
/// `ceil(len / m)` chunks (none exactly when the payload is empty), each
/// of exactly `m` bytes except possibly the last, which holds
/// `len % m` bytes (or `m`, when the length is a positive exact
/// multiple); and the chunks concatenated in order are the payload.
pub proof fn lemma_chunking(data: Seq<u8>, m: nat)
    requires
        1 <= m,
    ensures
        chunks_of(data, m).len() == div_ceil(data.len(), m),
        chunks_of(data, m).len() == 0 <==> data.len() == 0,
        forall|i: int|
            0 <= i < chunks_of(data, m).len() - 1 ==> (#[trigger] chunks_of(data, m)[i]).len()
                == m,
        chunks_of(data, m).len() > 0 ==> chunks_of(data, m).last().len() == (if data.len() % m
            == 0 {
            m as int
        } else {
            (data.len() % m) as int
        }),
        chunks_of(data, m).len() > 0 ==> data.len() == m * (chunks_of(data, m).len() - 1)
            + chunks_of(data, m).last().len(),
        chunks_of(data, m).flatten() == data,
    decreases data.len(),
{
    let cs = chunks_of(data, m);
    lemma_div_ceil(data.len(), m);
    if data.len() == 0 {
        assert(cs.flatten() =~= data);
        assert(((m - 1) as int) / (m as int) == 0) by {
            vstd::arithmetic::div_mod::lemma_basic_div((m - 1) as int, m as int);
        }
    } else if data.len() <= m {
        assert(cs == seq![data]);
        assert(cs.flatten() =~= data) by {
            cs.lemma_flatten_one_element();
        }
        assert(cs.last() == data);
        assert(m * ((cs.len() - 1) as int) == 0) by (nonlinear_arith)
            requires
                cs.len() == 1,
        ;
        if data.len() < m {
            assert(data.len() as int == 0 * (m as int) + data.len() as int) by (nonlinear_arith);
            lemma_fundamental_div_mod_converse(data.len() as int, m as int, 0, data.len() as int);
        } else {
            assert(data.len() as int == 1 * (m as int) + 0) by (nonlinear_arith)
                requires
                    data.len() == m,
            ;
            lemma_fundamental_div_mod_converse(data.len() as int, m as int, 1, 0);
        }
    } else {
        let head = data.take(m as int);
        let tail = data.skip(m as int);
        lemma_chunking(tail, m);
        let rest = chunks_of(tail, m);
        assert(cs == seq![head] + rest);
        assert(cs.drop_first() =~= rest);
        assert(cs.first() == head);
        assert(cs.flatten() == head + rest.flatten());
        assert(head + tail =~= data);
        assert(data.len() % m == tail.len() % m && data.len() / m == tail.len() / m + 1) by {
            lemma_fundamental_div_mod(tail.len() as int, m as int);
            let tq = tail.len() as int / m as int;
            let tr = tail.len() as int % m as int;
            assert(data.len() as int == (tq + 1) * (m as int) + tr) by (nonlinear_arith)
                requires
                    tail.len() as int == (m as int) * tq + tr,
                    data.len() == tail.len() + m,
            ;
            lemma_fundamental_div_mod_converse(data.len() as int, m as int, tq + 1, tr);
        }
        lemma_div_ceil(tail.len(), m);
        assert(cs.last() == rest.last());
        assert(data.len() == m * (cs.len() - 1) + cs.last().len()) by {
            assert(tail.len() == m * (rest.len() - 1) + rest.last().len());
            assert(m * (rest.len() - 1) + m == m * rest.len()) by (nonlinear_arith);
            assert(m * ((cs.len() - 1) as int) == m * (rest.len() as int));
        }
    }
}

/// Splits `data` into consecutive chunks of exactly `max_package_size`
/// bytes, the final chunk holding the remainder.
pub fn data_to_vec_data(data: Vec<u8>, max_package_size: usize) -> (r: Vec<Vec<u8>>)
    requires
        1 <= max_package_size,
    ensures
        r@.map_values(|c: Vec<u8>| c@) == chunks_of(data@, max_package_size as nat),
{
    let m = max_package_size;
    let mut r: Vec<Vec<u8>> = Vec::new();
    let mut pos: usize = 0;
    proof {
        assert(data@.skip(0) =~= data@);
        assert(r@.map_values(|c: Vec<u8>| c@) =~= Seq::<Seq<u8>>::empty());
    }
    while data.len() - pos > m
        invariant
            pos <= data@.len(),
            1 <= m,
            chunks_of(data@, m as nat) == r@.map_values(|c: Vec<u8>| c@) + chunks_of(
                data@.skip(pos as int),
                m as nat,
            ),
        decreases data@.len() - pos,
    {
        let chunk = copy_range(&data, pos, pos + m);
        let ghost before = r@.map_values(|c: Vec<u8>| c@);
        let ghost tail = data@.skip(pos as int);
        r.push(chunk);
        proof {
            assert(tail.take(m as int) =~= chunk@);
            assert(tail.skip(m as int) =~= data@.skip(pos + m));
            assert(chunks_of(tail, m as nat) == seq![chunk@] + chunks_of(
                data@.skip(pos + m),
                m as nat,
            ));
            assert(r@.map_values(|c: Vec<u8>| c@) =~= before + seq![chunk@]);
            assert((before + seq![chunk@]) + chunks_of(data@.skip(pos + m), m as nat) =~= before
                + (seq![chunk@] + chunks_of(data@.skip(pos + m), m as nat)));
        }
        pos = pos + m;
    }
    if data.len() - pos > 0 {
        let chunk = copy_range(&data, pos, data.len());
        let ghost before = r@.map_values(|c: Vec<u8>| c@);
        let ghost tail = data@.skip(pos as int);
        r.push(chunk);
        proof {
            assert(tail =~= chunk@);
            assert(chunks_of(tail, m as nat) == seq![chunk@]);
            assert(r@.map_values(|c: Vec<u8>| c@) =~= before + seq![chunk@]);
        }
    } else {
        proof {
            assert(data@.skip(pos as int).len() == 0);
            assert(r@.map_values(|c: Vec<u8>| c@) + chunks_of(data@.skip(pos as int), m as nat)
                =~= r@.map_values(|c: Vec<u8>| c@));
        }
    }
    r
}

/// The wire bytes of a run of packages of which more follow: each frame
/// with a continuation byte of `1` behind it.
pub open spec fn frames_more(pkgs: Seq<(Seq<u8>, Seq<u8>)>) -> Seq<u8>
    decreases pkgs.len(),
{
    if pkgs.len() == 0 {
        Seq::empty()
    } else {
        frame_bytes(pkgs[0].0, pkgs[0].1) + seq![1u8] + frames_more(pkgs.skip(1))
    }
}

/// The body of a package stream: every frame followed by its continuation
/// byte, `1` while more packages remain and `0` after the last.
pub open spec fn packages_wire(pkgs: Seq<(Seq<u8>, Seq<u8>)>) -> Seq<u8>
    decreases pkgs.len(),
{
    if pkgs.len() == 0 {
        Seq::empty()
    } else if pkgs.len() == 1 {
        frame_bytes(pkgs[0].0, pkgs[0].1) + seq![0u8]
    } else {
        frame_bytes(pkgs[0].0, pkgs[0].1) + seq![1u8] + packages_wire(pkgs.skip(1))
    }
}

/// Parses the body of a package stream: frames with their continuation
/// bytes, ending exactly at a frame whose continuation byte is `0`.
/// Yields the payloads concatenated in arrival order.
pub open spec fn parse_packages(b: Seq<u8>) -> Option<Seq<u8>>
    decreases b.len(),
{
    if b.len() < 19 {
        None
    } else {
        let l = wire_decode(b.subrange(16, 19)) as int;
        if b.len() < 19 + l + 1 {
            None
        } else {
            let payload = b.subrange(19, 19 + l);
            let cont = b[19 + l];
            if cont == 0 {
                if b.len() == 19 + l + 1 {
                    Some(payload)
                } else {
                    None
                }
            } else {
                match parse_packages(b.skip(19 + l + 1)) {
                    Some(rest) => Some(payload + rest),
                    None => None,
                }
            }
        }
    }
}

/// Parses a whole package-stream wire: the leading batch-size code, then
/// the frames.  A wire of just a valid code is an empty transfer.
pub open spec fn parse_stream(wire: Seq<u8>) -> Option<Seq<u8>> {
    if wire.len() < 1 {
        None
    } else if !is_valid_batch_code(wire[0]) {
        None
    } else if wire.len() == 1 {
        Some(Seq::empty())
    } else {
        parse_packages(wire.skip(1))
    }
}

/// Appending a package to a run of continued frames appends its frame and
/// a continuation byte.
proof fn lemma_frames_more_push(s: Seq<(Seq<u8>, Seq<u8>)>, x: (Seq<u8>, Seq<u8>))
    ensures
        frames_more(s.push(x)) == frames_more(s) + frame_bytes(x.0, x.1) + seq![1u8],
    decreases s.len(),
{
    if s.len() == 0 {
        assert(s.push(x)[0] == x);
        assert(s.push(x).skip(1) =~= Seq::<(Seq<u8>, Seq<u8>)>::empty());
        assert(frames_more(Seq::<(Seq<u8>, Seq<u8>)>::empty()) == Seq::<u8>::empty());
        assert(frames_more(s.push(x)) == frame_bytes(x.0, x.1) + seq![1u8] + frames_more(
            Seq::<(Seq<u8>, Seq<u8>)>::empty(),
        ));
        assert(frames_more(s.push(x)) =~= frames_more(s) + frame_bytes(x.0, x.1) + seq![1u8]);
    } else {
        assert(s.push(x).skip(1) =~= s.skip(1).push(x));
        lemma_frames_more_push(s.skip(1), x);
        assert(s.push(x)[0] == s[0]);
        let head = frame_bytes(s[0].0, s[0].1) + seq![1u8];
        assert(frames_more(s.push(x)) == head + frames_more(s.skip(1).push(x)));
        assert(frames_more(s.skip(1).push(x)) == (frames_more(s.skip(1)) + frame_bytes(x.0, x.1))
            + seq![1u8]);
        assert(head + ((frames_more(s.skip(1)) + frame_bytes(x.0, x.1)) + seq![1u8]) =~= ((head
            + frames_more(s.skip(1))) + frame_bytes(x.0, x.1)) + seq![1u8]);
        assert(frames_more(s) == head + frames_more(s.skip(1)));
    }
}

/// The full stream body is the continued frames of all packages but the
/// last, then the last frame closed with a `0` byte.
proof fn lemma_packages_wire_last(s: Seq<(Seq<u8>, Seq<u8>)>, x: (Seq<u8>, Seq<u8>))
    ensures
        packages_wire(s.push(x)) == frames_more(s) + frame_bytes(x.0, x.1) + seq![0u8],
    decreases s.len(),
{
    if s.len() == 0 {
        assert(s.push(x)[0] == x);
        assert(frames_more(s) == Seq::<u8>::empty());
        assert(packages_wire(s.push(x)) =~= frames_more(s) + frame_bytes(x.0, x.1) + seq![0u8]);
    } else {
        assert(s.push(x).skip(1) =~= s.skip(1).push(x));
        lemma_packages_wire_last(s.skip(1), x);
        assert(s.push(x)[0] == s[0]);
        assert(s.push(x).len() >= 2);
        let head = frame_bytes(s[0].0, s[0].1) + seq![1u8];
        assert(packages_wire(s.push(x)) == head + packages_wire(s.skip(1).push(x)));
        assert(packages_wire(s.skip(1).push(x)) == (frames_more(s.skip(1)) + frame_bytes(
            x.0,
            x.1,
        )) + seq![0u8]);
        assert(head + ((frames_more(s.skip(1)) + frame_bytes(x.0, x.1)) + seq![0u8]) =~= ((head
            + frames_more(s.skip(1))) + frame_bytes(x.0, x.1)) + seq![0u8]);
        assert(frames_more(s) == head + frames_more(s.skip(1)));
    }
}

/// The stream body of any non-empty run of well-formed packages parses
/// back to their payloads concatenated in order.
proof fn lemma_parse_packages_wire(pkgs: Seq<(Seq<u8>, Seq<u8>)>)
    requires
        1 <= pkgs.len(),
        forall|i: int|
            0 <= i < pkgs.len() ==> (#[trigger] pkgs[i]).0.len() == 16 && pkgs[i].1.len()
                < 0x1000000,
    ensures
        parse_packages(packages_wire(pkgs)) == Some(
            pkgs.map_values(|p: (Seq<u8>, Seq<u8>)| p.1).flatten(),
        ),
    decreases pkgs.len(),
{
    let b = packages_wire(pkgs);
    let p0 = pkgs[0];
    let l = p0.1.len() as int;
    let f = frame_bytes(p0.0, p0.1);
    let payloads = pkgs.map_values(|p: (Seq<u8>, Seq<u8>)| p.1);
    lemma_pow256_values();
    lemma_wire_round_trip(p0.1.len(), 3);
    lemma_le_bytes_len(p0.1.len() / 256, 2);
    assert(f.len() == 19 + l);
    assert(payloads.len() == pkgs.len());
    assert(payloads[0] == p0.1);
    if pkgs.len() == 1 {
        assert(b == f + seq![0u8]);
        assert(b.len() == 19 + l + 1);
        assert(b.subrange(16, 19) =~= wire_encode(p0.1.len(), 3));
        assert(b.subrange(19, 19 + l) =~= p0.1);
        assert(b[19 + l] == 0);
        assert(parse_packages(b) == Some(p0.1));
        assert(payloads.flatten() == p0.1) by {
            payloads.lemma_flatten_one_element();
        }
    } else {
        let rest = packages_wire(pkgs.skip(1));
        assert(b == f + seq![1u8] + rest);
        assert(b.len() == 19 + l + 1 + rest.len());
        assert(rest.len() > 0) by {
            if pkgs.skip(1).len() == 1 {
            } else {
            }
        }
        assert(b.subrange(16, 19) =~= wire_encode(p0.1.len(), 3));
        assert(b.subrange(19, 19 + l) =~= p0.1);
        assert(b[19 + l] == 1);
        assert(b.skip(19 + l + 1) =~= rest);
        lemma_parse_packages_wire(pkgs.skip(1));
        let rest_payloads = pkgs.skip(1).map_values(|p: (Seq<u8>, Seq<u8>)| p.1);
        assert(parse_packages(b) == Some(p0.1 + rest_payloads.flatten()));
        assert(payloads.drop_first() =~= rest_payloads);
        assert(payloads.flatten() == payloads.first() + payloads.drop_first().flatten());
    }
}

/// One step of integer division: moving from `n` to `n + 1` raises the
/// quotient exactly when `n + 1` is a multiple of the divisor.
proof fn lemma_div_step(n: nat, v: nat)
    requires
        1 <= v,
    ensures
        (n + 1) as int / v as int == n as int / v as int + (if (n + 1) % v == 0 {
            1int
        } else {
            0int
        }),
{
    let q = (n + 1) as int / v as int;
    let r = (n + 1) as int % v as int;
    lemma_fundamental_div_mod((n + 1) as int, v as int);
    if r == 0 {
        assert(q >= 1) by (nonlinear_arith)
            requires
                (n + 1) as int == (v as int) * q,
                1 <= v,
                0 <= n,
        ;
        assert(n as int == (q - 1) * (v as int) + (v - 1)) by (nonlinear_arith)
            requires
                (n + 1) as int == (v as int) * q + r,
                r == 0,
        ;
        lemma_fundamental_div_mod_converse(n as int, v as int, q - 1, v as int - 1);
    } else {
        assert(n as int == q * (v as int) + (r - 1)) by (nonlinear_arith)
            requires
                (n + 1) as int == (v as int) * q + r,
        ;
        lemma_fundamental_div_mod_converse(n as int, v as int, q, r - 1);
    }
}

/// Report throttling: when the interval divides the total, the reports of
/// a full transfer number `(total - 1) / interval + 1` from the sending
/// loop plus the one mandatory trailing report.  (The loop reports only
/// when the count sent reaches a full multiple of the interval, so for a
/// total the interval does not divide it emits `total / interval`
/// reports, one fewer than this formula counts.)
pub proof fn lemma_report_throttling(total: nat, interval: nat)
    requires
        1 <= interval,
        1 <= total,
        total % interval == 0,
    ensures
        total / interval + 1 == (total - 1) as int / interval as int + 1 + 1,
{
    lemma_div_step((total - 1) as nat, interval);
}

/// Builds one package per chunk, in order: the chunk as payload, a fresh
/// meta identifier carrying the 1-based chunk index, no free bytes, the
/// package type marker, and the unencrypted flag.
pub fn data_to_packages(bytes: Vec<Vec<u8>>) -> (r: Vec<Package>)
    requires
        forall|i: int| 0 <= i < bytes@.len() ==> (#[trigger] bytes@[i])@.len() <= 0xFFFFFF,
    ensures
        r@.len() == bytes@.len(),
        forall|i: int|
            0 <= i < r@.len() ==> {
                &&& (#[trigger] r@[i]).data@ == bytes@[i]@
                &&& r@[i].wf()
                &&& is_meta_uuid(
                    r@[i].meta_uuid@,
                    (i + 1) as nat,
                    Seq::<u8>::empty(),
                    TYPE_MARKER_PACKAGE,
                    ENCRYPTION_UNENCRYPTED,
                )
            },
{
    let mut r: Vec<Package> = Vec::new();
    let mut i: usize = 0;
    while i < bytes.len()
        invariant
            i <= bytes@.len(),
            r@.len() == i,
            forall|j: int| 0 <= j < bytes@.len() ==> (#[trigger] bytes@[j])@.len() <= 0xFFFFFF,
            forall|j: int|
                0 <= j < i ==> {
                    &&& (#[trigger] r@[j]).data@ == bytes@[j]@
                    &&& r@[j].wf()
                    &&& is_meta_uuid(
                        r@[j].meta_uuid@,
                        (j + 1) as nat,
                        Seq::<u8>::empty(),
                        TYPE_MARKER_PACKAGE,
                        ENCRYPTION_UNENCRYPTED,
                    )
                },
        decreases bytes@.len() - i,
    {
        let package_bytes = copy_range(&bytes[i], 0, bytes[i].len());
        let meta_uuid = new_uuid(
            i + 1,
            Vec::new(),
            TYPE_MARKER_PACKAGE,
            ENCRYPTION_UNENCRYPTED,
        );
        proof {
            assert(bytes@[i as int]@.subrange(0, bytes@[i as int]@.len() as int) =~= bytes@[
                i as int
            ]@);
        }
        r.push(Package { meta_uuid, data: package_bytes });
        i = i + 1;
    }
    r
}


/// The progress report standing after `s` of `total` packages went out:
/// every package but the last carries exactly `m` bytes, so the byte count
/// is `s * m` until the final chunk rounds it up to the whole payload.
pub open spec fn report_after(s: nat, total: nat, total_bytes: nat, m: nat) -> PackagesReport {
    PackagesReport {
        sent: s as usize,
        total: total as usize,
        bytes_sent: (if s == total {
            total_bytes
        } else {
            s * m
        }) as usize,
        total_bytes: total_bytes as usize,
    }
}

/// Lets another structure turn its data into packages for transfer.
pub trait Packable {
    fn pack() -> Packages;
}

/// One transfer: the byte buffer to stream and its configuration, set
/// once before streaming starts.
#[derive(Debug)]
pub struct Packages {
    /// The payload of the transfer.
    pub data: Vec<u8>,
    /// Whether the transfer collects progress reports.
    pub reports_enabled: bool,
    /// How strongly the progress reports are throttled.
    pub reports_speed: Option<PackageReportSpeed>,
    /// The maximum payload of one package.
    pub packages_size: PackageSize,
    /// The advisory batch size announced to the peer.
    pub batch_size: PackagesBatchSize,
}

/// Writes every package as a frame followed by its continuation byte onto
/// the transport: `1` while more packages remain, `0` after the last.
#[verifier::loop_isolation(false)]
fn append_packages_wire(packages: &Vec<Package>, transport: &mut Vec<u8>)
    requires
        forall|i: int| 0 <= i < packages@.len() ==> (#[trigger] packages@[i]).wf(),
    ensures
        final(transport)@ == old(transport)@ + packages_wire(
            packages@.map_values(|p: Package| (p.meta_uuid@, p.data@)),
        ),
{
    let ghost pv = packages@.map_values(|p: Package| (p.meta_uuid@, p.data@));
    let ghost base = old(transport)@;
    let total = packages.len();
    proof {
        if total == 0 {
            assert(transport@ =~= base + packages_wire(pv));
        } else {
            assert(pv.take(0) =~= Seq::<(Seq<u8>, Seq<u8>)>::empty());
            assert(frames_more(pv.take(0)) == Seq::<u8>::empty());
            assert(transport@ =~= base + frames_more(pv.take(0)));
        }
    }
    let mut i: usize = 0;
    while i < total
        invariant
            i <= total,
            transport@ == base + (if i < total {
                frames_more(pv.take(i as int))
            } else {
                packages_wire(pv)
            }),
        decreases total - i,
    {
        let p = &packages[i];
        let data_copy = copy_range(&p.data, 0, p.data.len());
        let id_copy = copy_range(&p.meta_uuid, 0, p.meta_uuid.len());
        proof {
            assert(data_copy@ =~= p.data@);
            assert(id_copy@ =~= p.meta_uuid@);
        }
        let mut frame = Package::new(data_copy, id_copy).to_buffer();
        let ghost before = transport@;
        let ghost x = pv[i as int];
        if i == total - 1 {
            frame.push(0);
            transport.append(&mut frame);
            proof {
                lemma_packages_wire_last(pv.take(i as int), x);
                assert(pv.take(i as int).push(x) =~= pv);
                assert(transport@ =~= base + packages_wire(pv)) by {
                    assert(frame_bytes(x.0, x.1).push(0u8) =~= frame_bytes(x.0, x.1) + seq![0u8]);
                    assert(before + (frame_bytes(x.0, x.1) + seq![0u8]) =~= base + ((frames_more(
                        pv.take(i as int),
                    ) + frame_bytes(x.0, x.1)) + seq![0u8]));
                }
            }
        } else {
            frame.push(1);
            transport.append(&mut frame);
            proof {
                lemma_frames_more_push(pv.take(i as int), x);
                assert(pv.take(i as int).push(x) =~= pv.take(i + 1));
                assert(transport@ =~= base + frames_more(pv.take(i + 1))) by {
                    assert(frame_bytes(x.0, x.1).push(1u8) =~= frame_bytes(x.0, x.1) + seq![1u8]);
                    assert(before + (frame_bytes(x.0, x.1) + seq![1u8]) =~= base + ((frames_more(
                        pv.take(i as int),
                    ) + frame_bytes(x.0, x.1)) + seq![1u8]));
                }
            }
        }
        i = i + 1;
    }
}

impl Packages {
    /// A transfer of `data` with every setting at its default: no report
    /// observer, steady report speed, medium package size, medium batch
    /// size.
    pub fn new(data: Vec<u8>) -> (r: Self)
        ensures
            r.data == data,
            r.reports_enabled == false,
            r.reports_speed == Some(PackageReportSpeed::STEADY),
            r.packages_size == PackageSize::MEDIUM,
            r.batch_size == PackagesBatchSize::MEDIUM,
    {
        Packages {
            data,
            reports_enabled: false,
            reports_speed: Some(PackageReportSpeed::STEADY),
            packages_size: PackageSize::MEDIUM,
            batch_size: PackagesBatchSize::MEDIUM,
        }
    }

    /// Selects the batch size announced to the peer.
    pub fn set_batch_size(&mut self, batch_size: PackagesBatchSize)
        ensures
            final(self).batch_size == batch_size,
            final(self).data == old(self).data,
            final(self).reports_enabled == old(self).reports_enabled,
            final(self).reports_speed == old(self).reports_speed,
            final(self).packages_size == old(self).packages_size,
    {
        self.batch_size = batch_size;
    }

    /// Selects the maximum payload of one package.
    pub fn set_package_size(&mut self, package_size: PackageSize)
        ensures
            final(self).packages_size == package_size,
            final(self).data == old(self).data,
            final(self).reports_enabled == old(self).reports_enabled,
            final(self).reports_speed == old(self).reports_speed,
            final(self).batch_size == old(self).batch_size,
    {
        self.packages_size = package_size;
    }

    /// Turns progress reporting on: the transfer then returns the reports
    /// it emitted for the caller to drain.
    pub fn listen_reports(&mut self)
        ensures
            final(self).reports_enabled == true,
            final(self).data == old(self).data,
            final(self).reports_speed == old(self).reports_speed,
            final(self).packages_size == old(self).packages_size,
            final(self).batch_size == old(self).batch_size,
    {
        self.reports_enabled = true;
    }

    /// Selects how strongly progress reports are throttled.
    pub fn set_report_speed(&mut self, f: PackageReportSpeed)
        ensures
            final(self).reports_speed == Some(f),
            final(self).data == old(self).data,
            final(self).reports_enabled == old(self).reports_enabled,
            final(self).packages_size == old(self).packages_size,
            final(self).batch_size == old(self).batch_size,
    {
        self.reports_speed = Some(f)
    }

    /// Streams the buffer onto the transport: one byte with the batch-size
    /// code, then every package in chunk order, each frame followed by its
    /// continuation byte.  Returns the progress reports the transfer
    /// emitted, in order; none unless reporting was turned on.
    ///
    /// Whatever the configuration, what went onto the transport decodes
    /// back to exactly the streamed buffer.
    #[verifier::loop_isolation(false)]
    #[verifier::rlimit(50)]
    pub fn write_to(self, transport: &mut Vec<u8>) -> (reports: Vec<PackagesReport>)
        ensures
            ({
                let m = self.packages_size.limit();
                let chunks = chunks_of(self.data@, m);
                let total = chunks.len();
                let interval = (match self.reports_speed {
                    Some(speed) => report_interval(speed, total),
                    None => 1,
                });
                let appended = final(transport)@.skip(old(transport)@.len() as int);
                &&& final(transport)@.len() > old(transport)@.len()
                &&& final(transport)@.take(old(transport)@.len() as int) == old(transport)@
                &&& parse_stream(appended) == Some(self.data@)
                &&& appended[0] == self.batch_size.batch_code()
                &&& (exists|ids: Seq<Seq<u8>>|
                    {
                        &&& ids.len() == total
                        &&& (forall|i: int|
                            0 <= i < total ==> is_meta_uuid(
                                #[trigger] ids[i],
                                (i + 1) as nat,
                                Seq::<u8>::empty(),
                                TYPE_MARKER_PACKAGE,
                                ENCRYPTION_UNENCRYPTED,
                            ))
                        &&& appended == seq![self.batch_size.batch_code()] + packages_wire(
                            Seq::new(total, |i: int| (ids[i], chunks[i])),
                        )
                    })
                &&& (if self.reports_enabled {
                    &&& reports@.len() == total / interval + 1
                    &&& (forall|k: int|
                        0 <= k < total / interval ==> #[trigger] reports@[k] == report_after(
                            ((k + 1) * interval) as nat,
                            total,
                            self.data@.len(),
                            m,
                        ))
                    &&& reports@.last() == report_after(total, total, self.data@.len(), m)
                } else {
                    reports@.len() == 0
                })
            }),
    {
        let Packages { data, reports_enabled, reports_speed, packages_size, batch_size } = self;
        let ghost data_view = data@;
        let max = packages_size.get_value();
        let ghost m = max as nat;
        let total_bytes = data.len();
        let ghost chunks = chunks_of(data_view, m);
        proof {
            lemma_chunking(data_view, m);
        }
        let chunk_vec = data_to_vec_data(data, max);
        proof {
            assert(forall|i: int|
                0 <= i < chunk_vec@.len() ==> (#[trigger] chunk_vec@[i])@.len() <= 0xFFFFFF) by {
                assert(forall|i: int|
                    0 <= i < chunk_vec@.len() ==> (#[trigger] chunk_vec@[i])@ == chunks[i]);
            }
        }
        let packages = data_to_packages(chunk_vec);
        let total = packages.len();
        let ghost pv = packages@.map_values(|p: Package| (p.meta_uuid@, p.data@));
        let interval: usize = match &reports_speed {
            Option::None => 1,
            Option::Some(speed) => speed.apply_multiplier(total),
        };
        let ghost base = old(transport)@;
        let code = batch_size.to_value();
        transport.push(code);
        append_packages_wire(&packages, transport);
        proof {
            assert(transport@ =~= base + (seq![code] + packages_wire(pv)));
            assert(transport@.take(base.len() as int) =~= base);
            assert(transport@.skip(base.len() as int) =~= seq![code] + packages_wire(pv));
            let appended = transport@.skip(base.len() as int);
            assert(appended[0] == code);
            assert(forall|i: int| 0 <= i < total ==> (#[trigger] pv[i]).0 == packages@[i].meta_uuid@
                && pv[i].1 == packages@[i].data@);
            assert(forall|i: int| 0 <= i < total ==> #[trigger] pv[i].1 == chunks[i]);
            if total == 0 {
                assert(data_view.len() == 0);
                assert(packages_wire(pv) == Seq::<u8>::empty());
                assert(appended =~= seq![code]);
                assert(parse_stream(appended) == Some(Seq::<u8>::empty()));
                assert(data_view =~= Seq::<u8>::empty());
            } else {
                assert(forall|i: int|
                    0 <= i < pv.len() ==> (#[trigger] pv[i]).0.len() == 16 && pv[i].1.len()
                        < 0x1000000);
                lemma_parse_packages_wire(pv);
                assert(pv.map_values(|p: (Seq<u8>, Seq<u8>)| p.1) =~= chunks);
                assert(appended.skip(1) =~= packages_wire(pv));
                assert(packages_wire(pv).len() >= 1);
                assert(parse_stream(appended) == Some(data_view));
            }
            let ids = packages@.map_values(|p: Package| p.meta_uuid@);
            assert(Seq::new(total as nat, |i: int| (ids[i], chunks[i])) =~= pv);
            assert({
                &&& ids.len() == total as nat
                &&& (forall|i: int|
                    0 <= i < total ==> is_meta_uuid(
                        #[trigger] ids[i],
                        (i + 1) as nat,
                        Seq::<u8>::empty(),
                        TYPE_MARKER_PACKAGE,
                        ENCRYPTION_UNENCRYPTED,
                    ))
                &&& appended == seq![code] + packages_wire(
                    Seq::new(total as nat, |i: int| (ids[i], chunks[i])),
                )
            });
        }
        let mut reports: Vec<PackagesReport> = Vec::new();
        if !reports_enabled {
            return reports;
        }
        let mut sent: usize = 0;
        let mut bytes_sent: usize = 0;
        let mut i: usize = 0;
        while i < total
            invariant
                i <= total,
                sent == i,
                bytes_sent as int == (if i < total {
                    i * m
                } else {
                    data_view.len() as int
                }),
                bytes_sent <= total_bytes,
                reports@.len() == i as int / interval as int,
                forall|k: int|
                    0 <= k < reports@.len() ==> #[trigger] reports@[k] == report_after(
                        ((k + 1) * interval) as nat,
                        total as nat,
                        data_view.len(),
                        m,
                    ),
            decreases total - i,
        {
            let p = &packages[i];
            proof {
                assert(p.data@ == chunks[i as int]);
                if i + 1 < total {
                    assert(chunks[i as int].len() == m);
                    assert((i + 1) * m <= (total - 1) * m) by (nonlinear_arith)
                        requires
                            i + 1 <= total - 1,
                            m >= 0,
                    ;
                    assert(data_view.len() == m * (total - 1) + chunks.last().len());
                    assert(m * (total - 1) == (total - 1) * m) by (nonlinear_arith);
                    assert(i * m + m == (i + 1) * m) by (nonlinear_arith);
                } else {
                    assert(i == total - 1);
                    assert(chunks.last() == chunks[i as int]);
                    assert(data_view.len() == m * (total - 1) + chunks.last().len());
                    assert(m * (total - 1) == i * m) by (nonlinear_arith)
                        requires
                            i == total - 1,
                    ;
                }
            }
            bytes_sent = bytes_sent + p.data.len();
            sent = sent + 1;
            proof {
                lemma_div_step(i as nat, interval as nat);
            }
            if sent % interval == 0 {
                proof {
                    lemma_fundamental_div_mod(sent as int, interval as int);
                    assert((i as int / interval as int + 1) * interval as int == sent as int)
                        by (nonlinear_arith)
                        requires
                            sent as int == interval as int * (sent as int / interval as int),
                            sent as int / interval as int == i as int / interval as int + 1,
                    ;
                }
                reports.push(
                    PackagesReport { sent, total, bytes_sent, total_bytes },
                );
            }
            i = i + 1;
        }
        reports.push(
            PackagesReport { sent, total, bytes_sent, total_bytes },
        );
        reports
    }

    /// Decodes one package stream out of `wire`: the leading batch-size
    /// code, then every frame in arrival order until one carries a
    /// continuation byte of `0`, which must close the wire exactly.
    ///
    /// An invalid batch-size byte is rejected before any package frame is
    /// read; missing bytes anywhere are a short read.
    #[verifier::loop_isolation(false)]
    pub fn read_from(wire: &Vec<u8>) -> (r: Result<Packages, TransferError>)
        ensures
            match r {
                Ok(p) => {
                    &&& parse_stream(wire@) == Some(p.data@)
                    &&& 1 <= wire@.len() && p.batch_size.batch_code() == wire@[0]
                    &&& p.reports_enabled == false
                    &&& p.reports_speed == Some(PackageReportSpeed::STEADY)
                    &&& p.packages_size == PackageSize::MEDIUM
                },
                Err(e) => {
                    &&& parse_stream(wire@) is None
                    &&& (e == TransferError::ShortRead || e == TransferError::InvalidBatchCode)
                    &&& ((e == TransferError::InvalidBatchCode) <==> (1 <= wire@.len()
                        && !is_valid_batch_code(wire@[0])))
                },
            },
    {
        let mut packages = Packages::new(Vec::new());
        if wire.len() == 0 {
            return Err(TransferError::ShortRead);
        }
        let batch_size = match PackagesBatchSize::from_value(wire[0]) {
            Result::Ok(b) => b,
            Result::Err(_) => {
                return Err(TransferError::InvalidBatchCode);
            },
        };
        packages.batch_size = batch_size;
        let mut pos: usize = 1;
        if pos == wire.len() {
            proof {
                assert(packages.data@ =~= Seq::<u8>::empty());
            }
            return Ok(packages);
        }
        loop
            invariant
                1 <= pos <= wire@.len(),
                2 <= wire@.len(),
                is_valid_batch_code(wire@[0]),
                packages.batch_size == batch_size,
                batch_size.batch_code() == wire@[0],
                packages.reports_enabled == false,
                packages.reports_speed == Some(PackageReportSpeed::STEADY),
                packages.packages_size == PackageSize::MEDIUM,
                parse_stream(wire@) == (match parse_packages(wire@.skip(pos as int)) {
                    Some(rest) => Some(packages.data@ + rest),
                    None => None,
                }),
            decreases wire@.len() - pos,
        {
            let ghost tail = wire@.skip(pos as int);
            match Package::from_buffer(wire, pos) {
                Result::Err(_) => {
                    return Err(TransferError::ShortRead);
                },
                Result::Ok((package, end)) => {
                    let ghost used = end - pos;
                    let ghost l = package.data@.len() as int;
                    if end == wire.len() {
                        proof {
                            assert(tail.len() < 19 + l + 1);
                        }
                        return Err(TransferError::ShortRead);
                    }
                    let footer = wire[end];
                    let ghost old_data = packages.data@;
                    let mut package_data = package.data;
                    packages.data.append(&mut package_data);
                    proof {
                        assert(tail.subrange(19, 19 + l) == packages.data@.skip(
                            old_data.len() as int,
                        ));
                        assert(tail[19 + l] == footer);
                    }
                    pos = end + 1;
                    if footer == 0 {
                        if pos == wire.len() {
                            proof {
                                assert(tail.len() == 19 + l + 1);
                                assert(parse_packages(tail) == Some(tail.subrange(19, 19 + l)));
                                assert(old_data + tail.subrange(19, 19 + l) =~= packages.data@);
                            }
                            return Ok(packages);
                        }
                        proof {
                            assert(tail.len() > 19 + l + 1);
                        }
                        return Err(TransferError::ShortRead);
                    }
                    proof {
                        assert(tail.skip(19 + l + 1) =~= wire@.skip(pos as int));
                        let rest_opt = parse_packages(wire@.skip(pos as int));
                        if rest_opt is Some {
                            let rest = rest_opt.unwrap();
                            assert(parse_packages(tail) == Some(tail.subrange(19, 19 + l) + rest));
                            assert(old_data + (tail.subrange(19, 19 + l) + rest) =~= packages.data@
                                + rest);
                        } else {
                            assert(parse_packages(tail) is None);
                        }
                    }
                },
            }
        }
    }
}

/// Prepends a payload to a parse result that succeeded.
pub open spec fn opt_prepend(payload: Seq<u8>, rest: Option<Seq<u8>>) -> Option<Seq<u8>> {
    match rest {
        Some(r) => Some(payload + r),
        None => None,
    }
}

/// The run of frames in `prefix` each announced more to come, carrying
/// `payload` in order: parsing anything placed after them parses the
/// whole, with `payload` prepended.
pub open spec fn resumes(prefix: Seq<u8>, payload: Seq<u8>) -> bool {
    forall|rest: Seq<u8>|
        #[trigger] parse_packages(prefix + rest) == opt_prepend(payload, parse_packages(rest))
}

/// Nothing consumed yet resumes with nothing to prepend.
proof fn lemma_resumes_empty()
    ensures
        resumes(Seq::<u8>::empty(), Seq::<u8>::empty()),
{
    assert forall|rest: Seq<u8>|
        #[trigger] parse_packages(Seq::<u8>::empty() + rest) == opt_prepend(
            Seq::<u8>::empty(),
            parse_packages(rest),
        ) by {
        assert(Seq::<u8>::empty() + rest =~= rest);
        if parse_packages(rest) is Some {
            assert(Seq::<u8>::empty() + parse_packages(rest).unwrap() =~= parse_packages(
                rest,
            ).unwrap());
        }
    }
}

/// Consuming one more frame whose continuation byte announces more keeps
/// the resumption, with the frame's payload appended.
proof fn lemma_resumes_extend(prefix: Seq<u8>, payload: Seq<u8>, frame: Seq<u8>, cont: u8)
    requires
        resumes(prefix, payload),
        19 <= frame.len(),
        wire_decode(frame.subrange(16, 19)) == frame.len() - 19,
        cont != 0,
    ensures
        resumes((prefix + frame) + seq![cont], payload + frame.skip(19)),
{
    let l = frame.len() - 19;
    let body = frame.skip(19);
    assert forall|rest: Seq<u8>|
        #[trigger] parse_packages(((prefix + frame) + seq![cont]) + rest) == opt_prepend(
            payload + body,
            parse_packages(rest),
        ) by {
        let step = (frame + seq![cont]) + rest;
        assert(((prefix + frame) + seq![cont]) + rest =~= prefix + step);
        assert(parse_packages(prefix + step) == opt_prepend(payload, parse_packages(step)));
        assert(step.len() == 19 + l + 1 + rest.len());
        assert(step.subrange(16, 19) =~= frame.subrange(16, 19));
        assert(step.subrange(19, 19 + l) =~= body);
        assert(step[19 + l] == cont);
        assert(step.skip(19 + l + 1) =~= rest);
        assert(parse_packages(step) == opt_prepend(body, parse_packages(rest)));
        if parse_packages(rest) is Some {
            let r = parse_packages(rest).unwrap();
            assert(payload + (body + r) =~= (payload + body) + r);
        }
    }
}

/// Consuming the closing frame settles the parse: the whole body is the
/// payloads in order.
proof fn lemma_resumes_close(prefix: Seq<u8>, payload: Seq<u8>, frame: Seq<u8>)
    requires
        resumes(prefix, payload),
        19 <= frame.len(),
        wire_decode(frame.subrange(16, 19)) == frame.len() - 19,
    ensures
        parse_packages((prefix + frame) + seq![0u8]) == Some(payload + frame.skip(19)),
{
    let l = frame.len() - 19;
    let body = frame.skip(19);
    let step = frame + seq![0u8];
    assert((prefix + frame) + seq![0u8] =~= prefix + step);
    assert(parse_packages(prefix + step) == opt_prepend(payload, parse_packages(step)));
    assert(step.len() == 19 + l + 1);
    assert(step.subrange(16, 19) =~= frame.subrange(16, 19));
    assert(step.subrange(19, 19 + l) =~= body);
    assert(step[19 + l] == 0);
    assert(parse_packages(step) == Some(body));
}

/// Where the receive side of a package stream stands between two reads.
#[derive(Clone, Copy, Debug, PartialEq, Eq, Structural)]
pub enum ReceiverStage {
    /// The batch-size code byte is due next.
    ExpectCode,
    /// A frame header is due next: the identifier and the length prefix.
    ExpectHeader,
    /// The frame's payload and its continuation byte are due next; the
    /// field holds the payload length the header announced.
    ExpectBody(usize),
    /// A frame closed the stream; nothing more is due.
    Done,
}

/// The receive side of one package stream over a transport that is read
/// in exact byte counts: it says how many bytes it needs next, consumes
/// them, and assembles the whole wire for decoding once the closing
/// frame arrived.  The caller only moves bytes; every decision about the
/// wire is made here, and a receiver built through `new` and `feed` is
/// always well-formed, so `finish` is bound to succeed.
pub struct Receiver {
    /// Every byte consumed so far, in arrival order.
    pub wire: Vec<u8>,
    /// What is due next.
    pub stage: ReceiverStage,
    /// The payloads of the frames consumed so far, concatenated.
    pub payload: Ghost<Seq<u8>>,
}

impl Receiver {
    /// What holds of the consumed bytes at each stage: the frames behind
    /// the current position resume any continuation of the wire, and a
    /// closed stream parses to exactly the collected payload.
    pub open spec fn wf(self) -> bool {
        match self.stage {
            ReceiverStage::ExpectCode => {
                &&& self.wire@.len() == 0
                &&& self.payload@ == Seq::<u8>::empty()
            },
            ReceiverStage::ExpectHeader => {
                &&& 1 <= self.wire@.len()
                &&& is_valid_batch_code(self.wire@[0])
                &&& resumes(self.wire@.skip(1), self.payload@)
            },
            ReceiverStage::ExpectBody(l) => {
                &&& l <= 0xFFFFFF
                &&& 20 <= self.wire@.len()
                &&& is_valid_batch_code(self.wire@[0])
                &&& resumes(self.wire@.subrange(1, self.wire@.len() - 19), self.payload@)
                &&& wire_decode(
                    self.wire@.subrange(self.wire@.len() - 3, self.wire@.len() as int),
                ) == l
            },
            ReceiverStage::Done => parse_stream(self.wire@) == Some(self.payload@),
        }
    }

    /// A receiver that has consumed nothing and expects the batch-size
    /// code.
    pub fn new() -> (r: Self)
        ensures
            r.wire@ == Seq::<u8>::empty(),
            r.stage == ReceiverStage::ExpectCode,
            r.payload@ == Seq::<u8>::empty(),
            r.wf(),
    {
        Receiver {
            wire: Vec::new(),
            stage: ReceiverStage::ExpectCode,
            payload: Ghost(Seq::empty()),
        }
    }

    /// How many bytes to read next; zero once the stream is complete.
    pub fn next_read(&self) -> (r: usize)
        requires
            self.wf(),
        ensures
            r == match self.stage {
                ReceiverStage::ExpectCode => 1usize,
                ReceiverStage::ExpectHeader => 19usize,
                ReceiverStage::ExpectBody(l) => (l + 1) as usize,
                ReceiverStage::Done => 0usize,
            },
    {
        match self.stage {
            ReceiverStage::ExpectCode => 1,
            ReceiverStage::ExpectHeader => 19,
            ReceiverStage::ExpectBody(l) => l + 1,
            ReceiverStage::Done => 0,
        }
    }

    /// Whether a frame has closed the stream.
    pub fn is_done(&self) -> (r: bool)
        ensures
            r == (self.stage == ReceiverStage::Done),
    {
        match self.stage {
            ReceiverStage::Done => true,
            _ => false,
        }
    }

    /// Consumes exactly the bytes that were due: the batch-size code is
    /// ruled on before any frame is read; a header announces how much
    /// body to read; a body's continuation byte decides between another
    /// header and the end of the stream.
    pub fn feed(&mut self, bytes: Vec<u8>) -> (r: Result<(), TransferError>)
        requires
            old(self).wf(),
            old(self).stage != ReceiverStage::Done,
            bytes@.len() == match old(self).stage {
                ReceiverStage::ExpectCode => 1int,
                ReceiverStage::ExpectHeader => 19int,
                ReceiverStage::ExpectBody(l) => l + 1,
                ReceiverStage::Done => 0int,
            },
        ensures
            final(self).wf(),
            match old(self).stage {
                ReceiverStage::ExpectCode => {
                    if is_valid_batch_code(bytes@[0]) {
                        &&& r is Ok
                        &&& final(self).wire@ == old(self).wire@ + bytes@
                        &&& final(self).stage == ReceiverStage::ExpectHeader
                        &&& final(self).payload == old(self).payload
                    } else {
                        &&& r == Err::<(), TransferError>(TransferError::InvalidBatchCode)
                        &&& final(self).wire == old(self).wire
                        &&& final(self).stage == old(self).stage
                        &&& final(self).payload == old(self).payload
                    }
                },
                ReceiverStage::ExpectHeader => {
                    &&& r is Ok
                    &&& final(self).wire@ == old(self).wire@ + bytes@
                    &&& final(self).stage == ReceiverStage::ExpectBody(
                        wire_decode(bytes@.subrange(16, 19)) as usize,
                    )
                    &&& final(self).payload == old(self).payload
                },
                ReceiverStage::ExpectBody(l) => {
                    &&& r is Ok
                    &&& final(self).wire@ == old(self).wire@ + bytes@
                    &&& final(self).stage == (if bytes@[l as int] == 0 {
                        ReceiverStage::Done
                    } else {
                        ReceiverStage::ExpectHeader
                    })
                    &&& final(self).payload@ == old(self).payload@ + bytes@.subrange(0, l as int)
                },
                ReceiverStage::Done => false,
            },
    {
        match self.stage {
            ReceiverStage::ExpectCode => {
                if PackagesBatchSize::from_value(bytes[0]).is_err() {
                    return Err(TransferError::InvalidBatchCode);
                }
                let mut bytes = bytes;
                self.wire.append(&mut bytes);
                self.stage = ReceiverStage::ExpectHeader;
                proof {
                    lemma_resumes_empty();
                    assert(self.wire@.skip(1) =~= Seq::<u8>::empty());
                }
                Ok(())
            },
            ReceiverStage::ExpectHeader => {
                let length_bytes = copy_range(&bytes, 16, 19);
                proof {
                    lemma_wire_decode_bound(length_bytes@);
                    lemma_pow256_values();
                }
                let body_length = u8_bytes_to_usize(&length_bytes);
                let ghost before = self.wire@;
                let mut bytes = bytes;
                self.wire.append(&mut bytes);
                self.stage = ReceiverStage::ExpectBody(body_length);
                proof {
                    assert(self.wire@.subrange(1, self.wire@.len() - 19) =~= before.skip(1));
                    assert(self.wire@.subrange(self.wire@.len() - 3, self.wire@.len() as int)
                        =~= length_bytes@);
                }
                Ok(())
            },
            ReceiverStage::ExpectBody(l) => {
                let footer = bytes[l];
                let ghost before = self.wire@;
                let ghost body = bytes@.subrange(0, l as int);
                let ghost prefix = before.subrange(1, before.len() - 19);
                let ghost frame = before.subrange(before.len() - 19, before.len() as int) + body;
                let mut bytes = bytes;
                self.wire.append(&mut bytes);
                proof {
                    assert(frame.subrange(16, 19) =~= before.subrange(
                        before.len() - 3,
                        before.len() as int,
                    ));
                    assert(frame.skip(19) =~= body);
                    assert(self.wire@.skip(1) =~= (prefix + frame) + seq![footer]);
                    if footer == 0 {
                        lemma_resumes_close(prefix, self.payload@, frame);
                        assert(parse_packages(self.wire@.skip(1)) == Some(self.payload@ + body));
                        assert(self.wire@[0] == before[0]);
                    } else {
                        lemma_resumes_extend(prefix, self.payload@, frame, footer);
                        assert(self.wire@[0] == before[0]);
                    }
                }
                self.payload = Ghost(self.payload@ + body);
                self.stage = if footer == 0 {
                    ReceiverStage::Done
                } else {
                    ReceiverStage::ExpectHeader
                };
                Ok(())
            },
            ReceiverStage::Done => {
                proof {
                    assert(false);
                }
                Err(TransferError::ShortRead)
            },
        }
    }

    /// Decodes the assembled wire once the closing frame arrived, exactly
    /// as decoding the same bytes in one piece would.  On a receiver that
    /// was fed through its own stages this is bound to succeed, with the
    /// collected payload.
    pub fn finish(self) -> (r: Result<Packages, TransferError>)
        requires
            self.stage == ReceiverStage::Done,
            self.wf(),
        ensures
            r is Ok,
            r.unwrap().data@ == self.payload@,
            parse_stream(self.wire@) == Some(self.payload@),
            r.unwrap().batch_size.batch_code() == self.wire@[0],
    {
        Packages::read_from(&self.wire)
    }
}

/// Serializes caller-built packages into one package stream under the
/// given size setting: the batch-size code, then every frame with its
/// continuation byte.  A package whose payload exceeds the active limit
/// is rejected, as a configuration error, before any bytes are produced.
#[verifier::loop_isolation(false)]
pub fn packages_to_wire(
    packages: &Vec<Package>,
    package_size: &PackageSize,
    batch_size: &PackagesBatchSize,
) -> (r: Result<Vec<u8>, TransferError>)
    requires
        forall|i: int|
            0 <= i < packages@.len() ==> (#[trigger] packages@[i]).meta_uuid@.len() == 16,
    ensures
        ({
            let pv = packages@.map_values(|p: Package| (p.meta_uuid@, p.data@));
            match r {
                Ok(wire) => {
                    &&& (forall|i: int|
                        0 <= i < packages@.len() ==> (#[trigger] packages@[i]).data@.len()
                            <= package_size.limit())
                    &&& wire@ == seq![batch_size.batch_code()] + packages_wire(pv)
                    &&& parse_stream(wire@) == Some(
                        pv.map_values(|p: (Seq<u8>, Seq<u8>)| p.1).flatten(),
                    )
                },
                Err(e) => {
                    &&& e == TransferError::PayloadTooLarge
                    &&& (exists|i: int|
                        0 <= i < packages@.len() && (#[trigger] packages@[i]).data@.len()
                            > package_size.limit())
                },
            }
        }),
{
    let limit = package_size.get_value();
    let mut i: usize = 0;
    while i < packages.len()
        invariant
            i <= packages@.len(),
            forall|j: int| 0 <= j < i ==> (#[trigger] packages@[j]).data@.len() <= limit,
        decreases packages@.len() - i,
    {
        if packages[i].data.len() > limit {
            return Err(TransferError::PayloadTooLarge);
        }
        i = i + 1;
    }
    let ghost pv = packages@.map_values(|p: Package| (p.meta_uuid@, p.data@));
    let mut wire: Vec<u8> = Vec::new();
    wire.push(batch_size.to_value());
    append_packages_wire(packages, &mut wire);
    proof {
        assert(wire@ =~= seq![batch_size.batch_code()] + packages_wire(pv));
        assert(wire@[0] == batch_size.batch_code());
        if packages@.len() == 0 {
            assert(packages_wire(pv) == Seq::<u8>::empty());
            assert(wire@.len() == 1);
            assert(pv.map_values(|p: (Seq<u8>, Seq<u8>)| p.1).flatten() =~= Seq::<u8>::empty());
        } else {
            assert(forall|j: int| 0 <= j < pv.len() ==> (#[trigger] pv[j]).0.len() == 16 && pv[
                j
            ].1.len() < 0x1000000);
            lemma_parse_packages_wire(pv);
            assert(packages_wire(pv).len() >= 1);
            assert(wire@.skip(1) =~= packages_wire(pv));
        }
    }
    Ok(wire)
}

} // verus!
