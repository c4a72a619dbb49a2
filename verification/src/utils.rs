//! The fixed-width integer wire codec used for every length prefix in the
//! protocol.
//!
//! The layout is not a conventional endianness: for a width-`w` encoding,
//! byte `i` for `i < w - 1` holds `(n / 256^(i+1)) % 256` (ascending
//! significance starting at weight 256^1), and the final byte holds
//! `n % 256`, the true least-significant digit.

use vstd::arithmetic::div_mod::{
    lemma_breakdown, lemma_fundamental_div_mod, lemma_multiply_divide_lt, lemma_small_mod,
};
use vstd::prelude::*;

verus! {

/// 256 to the power `w`: the number of values a `w`-byte field can carry.
pub open spec fn pow256(w: nat) -> nat
    decreases w,
{
    if w == 0 {
        1
    } else {
        256 * pow256((w - 1) as nat)
    }
}

/// The value of `s` read as a plain little-endian number: byte `i` has
/// weight 256^i.
pub open spec fn le_value(s: Seq<u8>) -> nat
    decreases s.len(),
{
    if s.len() == 0 {
        0
    } else {
        s[0] as nat + 256 * le_value(s.skip(1))
    }
}

/// The `w` low-order base-256 digits of `n`, least significant first.
pub open spec fn le_bytes(n: nat, w: nat) -> Seq<u8>
    decreases w,
{
    if w == 0 {
        Seq::empty()
    } else {
        seq![(n % 256) as u8] + le_bytes(n / 256, (w - 1) as nat)
    }
}

/// The fixed-width wire encoding of `n` in `w` bytes: the digits of weight
/// 256^1 .. 256^(w-1) in ascending significance, then `n % 256` as the
/// final byte.
pub open spec fn wire_encode(n: nat, w: nat) -> Seq<u8>
    recommends
        2 <= w,
{
    le_bytes(n / 256, (w - 1) as nat) + seq![(n % 256) as u8]
}

/// The value a fixed-width field holds: every byte but the last weighs
/// 256^(i+1), and the last byte weighs 1.
pub open spec fn wire_decode(s: Seq<u8>) -> nat
    recommends
        1 <= s.len(),
{
    if s.len() == 0 {
        0
    } else {
        256 * le_value(s.drop_last()) + s.last() as nat
    }
}

/// The concrete capacities of the field widths the protocol uses.
pub proof fn lemma_pow256_values()
    ensures
        pow256(2) == 0x10000,
        pow256(3) == 0x1000000,
        pow256(4) == 0x100000000,
{
    reveal_with_fuel(pow256, 5);
}

pub proof fn lemma_pow256_pos(w: nat)
    ensures
        1 <= pow256(w),
    decreases w,
{
    if w > 0 {
        lemma_pow256_pos((w - 1) as nat);
    }
}

pub proof fn lemma_le_bytes_len(n: nat, w: nat)
    ensures
        le_bytes(n, w).len() == w,
    decreases w,
{
    if w > 0 {
        lemma_le_bytes_len(n / 256, (w - 1) as nat);
    }
}

/// Little-endian digits decode back to the value, up to the field's capacity.
pub proof fn lemma_le_round_trip(n: nat, w: nat)
    ensures
        le_value(le_bytes(n, w)) == n % pow256(w),
    decreases w,
{
    if w == 0 {
        assert(le_bytes(n, 0) =~= Seq::<u8>::empty());
        lemma_small_mod(0, 1);
        assert(n % 1 == 0) by {
            lemma_fundamental_div_mod(n as int, 1);
        }
    } else {
        let rest = le_bytes(n / 256, (w - 1) as nat);
        let s = seq![(n % 256) as u8] + rest;
        assert(s.skip(1) =~= rest);
        assert(s[0] == (n % 256) as u8);
        lemma_le_round_trip(n / 256, (w - 1) as nat);
        lemma_pow256_pos((w - 1) as nat);
        lemma_breakdown(n as int, 256, pow256((w - 1) as nat) as int);
        assert(le_value(s) == n % 256 + 256 * ((n / 256) % pow256((w - 1) as nat)));
    }
}

/// The value of a byte sequence is bounded by the capacity of its width.
pub proof fn lemma_le_value_bound(s: Seq<u8>)
    ensures
        le_value(s) < pow256(s.len()),
    decreases s.len(),
{
    if s.len() > 0 {
        lemma_le_value_bound(s.skip(1));
    }
}

/// Splitting a sequence splits its value: the low part keeps its weight and
/// the high part is scaled by the capacity of the low part.
pub proof fn lemma_le_value_split(s: Seq<u8>, i: int)
    requires
        0 <= i <= s.len(),
    ensures
        le_value(s) == le_value(s.take(i)) + pow256(i as nat) * le_value(s.skip(i)),
    decreases i,
{
    if i == 0 {
        assert(s.take(0) =~= Seq::<u8>::empty());
        assert(s.skip(0) =~= s);
        assert(pow256(0) == 1);
        assert(1 * le_value(s.skip(0)) == le_value(s.skip(0)));
    } else {
        lemma_le_value_split(s.skip(1), i - 1);
        assert(s.skip(1).take(i - 1) =~= s.take(i).skip(1));
        assert(s.skip(1).skip(i - 1) =~= s.skip(i));
        assert(s.take(i)[0] == s[0]);
        let low = le_value(s.take(i).skip(1));
        let high = le_value(s.skip(i));
        let p = pow256((i - 1) as nat) as int;
        assert(le_value(s.skip(1)) == low + p * high);
        assert(le_value(s.take(i)) == s[0] as nat + 256 * low);
        assert(pow256(i as nat) == 256 * pow256((i - 1) as nat));
        assert(le_value(s) == s[0] as nat + 256 * (low + p * high));
        assert(256 * (low + p * high) == 256 * low + (256 * p) * high) by (nonlinear_arith);
        assert(le_value(s) == le_value(s.take(i)) + (256 * p) * high);
    }
}

/// A fixed-width field never decodes beyond the capacity of its width.
pub proof fn lemma_wire_decode_bound(s: Seq<u8>)
    requires
        1 <= s.len(),
    ensures
        wire_decode(s) < pow256(s.len()),
{
    lemma_le_value_bound(s.drop_last());
    assert(s.drop_last().len() == s.len() - 1);
}

/// Round-trip of the fixed-width codec over the full capacity of a
/// `w`-byte field.
pub proof fn lemma_wire_round_trip(n: nat, w: nat)
    requires
        2 <= w,
        n < pow256(w),
    ensures
        wire_encode(n, w).len() == w,
        wire_decode(wire_encode(n, w)) == n,
{
    let p = pow256((w - 1) as nat);
    let head = le_bytes(n / 256, (w - 1) as nat);
    let enc = wire_encode(n, w);
    lemma_le_bytes_len(n / 256, (w - 1) as nat);
    assert(enc.len() == w);
    assert(enc.drop_last() =~= head);
    assert(enc.last() == (n % 256) as u8);
    lemma_le_round_trip(n / 256, (w - 1) as nat);
    assert(n / 256 < p) by {
        assert(pow256(w) == 256 * p);
        lemma_multiply_divide_lt(n as int, 256, p as int);
    }
    lemma_small_mod((n / 256) as nat, p);
    assert(le_value(head) == n / 256);
    lemma_fundamental_div_mod(n as int, 256);
}

/// Round-trip of the fixed-width codec: for every width of at least two
/// bytes, any value below `256^(width-1) * 255 + 255` decodes back to
/// itself after encoding.
pub proof fn lemma_codec_round_trip(n: nat, w: nat)
    requires
        2 <= w,
        n < pow256((w - 1) as nat) * 255 + 255,
    ensures
        wire_decode(wire_encode(n, w)) == n,
{
    let p = pow256((w - 1) as nat);
    assert(256 <= p) by {
        lemma_pow256_pos((w - 2) as nat);
        assert(p == 256 * pow256((w - 2) as nat));
    }
    assert(n < pow256(w)) by {
        assert(pow256(w) == 256 * p);
        assert(p * 255 + 255 < p * 255 + p);
        assert(p * 255 + p == 256 * p) by (nonlinear_arith);
    }
    lemma_wire_round_trip(n, w);
}

/// Copies the bytes of `buf` between `from` and `to` into a fresh vector.
pub fn copy_range(buf: &Vec<u8>, from: usize, to: usize) -> (r: Vec<u8>)
    requires
        from <= to <= buf@.len(),
    ensures
        r@ == buf@.subrange(from as int, to as int),
{
    let mut r: Vec<u8> = Vec::new();
    let mut i: usize = from;
    while i < to
        invariant
            from <= i <= to <= buf@.len(),
            r@ == buf@.subrange(from as int, i as int),
        decreases to - i,
    {
        r.push(buf[i]);
        i = i + 1;
        proof {
            assert(r@ =~= buf@.subrange(from as int, i as int));
        }
    }
    proof {
        assert(r@ =~= buf@.subrange(from as int, to as int));
    }
    r
}

/// Writes `num` into exactly `width` bytes of the fixed-width layout.
///
/// Values of `num` at or above the capacity of the field are truncated to
/// their low-order digits, as the layout prescribes.
pub fn usize_to_u8_bytes(num: usize, width: usize) -> (r: Vec<u8>)
    requires
        2 <= width,
    ensures
        r@ == wire_encode(num as nat, width as nat),
        r@.len() == width,
{
    let mut r: Vec<u8> = Vec::new();
    let mut cur: usize = num / 256;
    let mut i: usize = 0;
    proof {
        assert(r@ + le_bytes((num / 256) as nat, (width - 1) as nat) =~= le_bytes(
            (num / 256) as nat,
            (width - 1) as nat,
        ));
    }
    while i < width - 1
        invariant
            2 <= width,
            i <= width - 1,
            r@.len() == i,
            r@ + le_bytes(cur as nat, (width - 1 - i) as nat) == le_bytes(
                (num / 256) as nat,
                (width - 1) as nat,
            ),
        decreases width - 1 - i,
    {
        let ghost rem = (width - 1 - i) as nat;
        let ghost old_r = r@;
        let ghost old_cur = cur as nat;
        r.push((cur % 256) as u8);
        cur = cur / 256;
        i = i + 1;
        proof {
            assert(le_bytes(old_cur, rem) == seq![(old_cur % 256) as u8] + le_bytes(
                old_cur / 256,
                (rem - 1) as nat,
            ));
            assert(r@ + le_bytes(cur as nat, (width - 1 - i) as nat) =~= old_r + le_bytes(
                old_cur,
                rem,
            ));
        }
    }
    proof {
        lemma_le_bytes_len((num / 256) as nat, (width - 1) as nat);
        assert(r@ =~= le_bytes((num / 256) as nat, (width - 1) as nat));
    }
    r.push((num % 256) as u8);
    proof {
        assert(r@ =~= wire_encode(num as nat, width as nat));
    }
    r
}

/// Reads a fixed-width field back into a number.
pub fn u8_bytes_to_usize(bytes: &Vec<u8>) -> (r: usize)
    requires
        2 <= bytes@.len(),
        wire_decode(bytes@) <= usize::MAX,
    ensures
        r == wire_decode(bytes@),
{
    let m: usize = bytes.len() - 1;
    let ghost head = bytes@.take(m as int);
    proof {
        assert(bytes@.drop_last() =~= head);
        assert(le_value(head) <= 256 * le_value(head));
    }
    let mut acc: usize = 0;
    let mut i: usize = m;
    proof {
        assert(bytes@.subrange(m as int, m as int) =~= Seq::<u8>::empty());
    }
    while i > 0
        invariant
            i <= m,
            m == bytes@.len() - 1,
            2 <= bytes@.len(),
            wire_decode(bytes@) <= usize::MAX,
            head == bytes@.take(m as int),
            acc == le_value(bytes@.subrange(i as int, m as int)),
        decreases i,
    {
        i = i - 1;
        proof {
            let sub = bytes@.subrange(i as int, m as int);
            assert(sub.skip(1) =~= bytes@.subrange(i + 1, m as int));
            assert(le_value(sub) == bytes@[i as int] as nat + 256 * acc);
            lemma_le_value_split(head, i as int);
            assert(head.skip(i as int) =~= sub);
            lemma_pow256_pos(i as nat);
            assert(le_value(sub) <= pow256(i as nat) * le_value(sub)) by (nonlinear_arith)
                requires
                    1 <= pow256(i as nat),
            ;
            assert(le_value(sub) <= le_value(head));
            assert(le_value(head) <= 256 * le_value(head));
            assert(256 * le_value(head) + bytes@.last() as nat == wire_decode(bytes@));
        }
        acc = bytes[i] as usize + 256 * acc;
    }
    proof {
        assert(bytes@.subrange(0, m as int) =~= head);
    }
    let last: u8 = bytes[m];
    256 * acc + last as usize
}

} // verus!
