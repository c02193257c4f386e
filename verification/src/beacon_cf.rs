//! Column families of the beacon database and their key and value
//! encodings. Slots are stored big-endian so that the byte order of keys,
//! which range scans follow, is the numeric order of slots.
use vstd::prelude::*;
use vstd::arithmetic::power::{pow, lemma_pow_positive};
use vstd::arithmetic::mul::{lemma_mul_inequality, lemma_mul_is_distributive_add};

use crate::types::Slot;

verus! {

/// Default column family (required by the database; unused by the beacon).
pub const DEFAULT_CF: &'static str = "default";

/// Primary store keyed by slot (big-endian `u64`).
pub const BEACON_BLOCKS_BY_SLOT_CF: &'static str = "beacon_blocks_by_slot";

/// Secondary index from block hash to slot (big-endian `u64` value).
pub const BEACON_HASH_TO_SLOT_CF: &'static str = "beacon_hash_to_slot";

/// The full column-family set the beacon database is opened with.
pub fn all_column_families() -> (names: [&'static str; 3])
    ensures
        names@ == seq![DEFAULT_CF, BEACON_BLOCKS_BY_SLOT_CF, BEACON_HASH_TO_SLOT_CF],
{
    let names = [DEFAULT_CF, BEACON_BLOCKS_BY_SLOT_CF, BEACON_HASH_TO_SLOT_CF];
    assert(names@ =~= seq![DEFAULT_CF, BEACON_BLOCKS_BY_SLOT_CF, BEACON_HASH_TO_SLOT_CF]);
    names
}

/// The number a big-endian byte string spells.
pub open spec fn be_value(bytes: Seq<u8>) -> nat
    decreases bytes.len(),
{
    if bytes.len() == 0 {
        0
    } else {
        be_value(bytes.drop_last()) * 256 + bytes.last() as nat
    }
}

/// The eight big-endian bytes of `x`.
pub open spec fn be_bytes(x: u64) -> Seq<u8> {
    seq![
        ((x >> 56u64) & 0xffu64) as u8,
        ((x >> 48u64) & 0xffu64) as u8,
        ((x >> 40u64) & 0xffu64) as u8,
        ((x >> 32u64) & 0xffu64) as u8,
        ((x >> 24u64) & 0xffu64) as u8,
        ((x >> 16u64) & 0xffu64) as u8,
        ((x >> 8u64) & 0xffu64) as u8,
        (x & 0xffu64) as u8,
    ]
}

/// Lexicographic byte order, the order in which keys are scanned.
pub open spec fn lex_lt(a: Seq<u8>, b: Seq<u8>) -> bool
    decreases a.len(),
{
    if a.len() == 0 || b.len() == 0 {
        a.len() == 0 && b.len() > 0
    } else {
        a[0] < b[0] || (a[0] == b[0] && lex_lt(a.skip(1), b.skip(1)))
    }
}

/// The low byte of `v`, taken as a `u8`, keeps its value.
proof fn lemma_low_byte(v: u64)
    ensures
        ((v & 0xffu64) as u8) as u64 == v & 0xffu64,
{
    assert(((v & 0xffu64) as u8) as u64 == v & 0xffu64) by (bit_vector);
}

/// The big-endian bytes of `x` spell `x`.
pub proof fn lemma_be_bytes_value(x: u64)
    ensures
        be_value(be_bytes(x)) == x,
{
    let s = be_bytes(x);
    let b0 = (x >> 56u64) & 0xffu64;
    let b1 = (x >> 48u64) & 0xffu64;
    let b2 = (x >> 40u64) & 0xffu64;
    let b3 = (x >> 32u64) & 0xffu64;
    let b4 = (x >> 24u64) & 0xffu64;
    let b5 = (x >> 16u64) & 0xffu64;
    let b6 = (x >> 8u64) & 0xffu64;
    let b7 = x & 0xffu64;
    lemma_low_byte(x >> 56u64);
    lemma_low_byte(x >> 48u64);
    lemma_low_byte(x >> 40u64);
    lemma_low_byte(x >> 32u64);
    lemma_low_byte(x >> 24u64);
    lemma_low_byte(x >> 16u64);
    lemma_low_byte(x >> 8u64);
    lemma_low_byte(x);
    assert(x == ((((((b0 * 256 + b1) * 256 + b2) * 256 + b3) * 256 + b4) * 256 + b5) * 256 + b6) * 256 + b7)
        by (bit_vector)
        requires
            b0 == (x >> 56u64) & 0xffu64,
            b1 == (x >> 48u64) & 0xffu64,
            b2 == (x >> 40u64) & 0xffu64,
            b3 == (x >> 32u64) & 0xffu64,
            b4 == (x >> 24u64) & 0xffu64,
            b5 == (x >> 16u64) & 0xffu64,
            b6 == (x >> 8u64) & 0xffu64,
            b7 == x & 0xffu64,
    ;
    assert(s.take(1).drop_last() =~= s.take(0));
    assert(s.take(2).drop_last() =~= s.take(1));
    assert(s.take(3).drop_last() =~= s.take(2));
    assert(s.take(4).drop_last() =~= s.take(3));
    assert(s.take(5).drop_last() =~= s.take(4));
    assert(s.take(6).drop_last() =~= s.take(5));
    assert(s.take(7).drop_last() =~= s.take(6));
    assert(s.drop_last() =~= s.take(7));
    assert(be_value(s.take(0)) == 0);
    assert(s.take(1).last() == s[0]);
    assert(s[0] as u64 == b0);
    assert(be_value(s.take(1)) == b0);
    assert(be_value(s.take(2)) == b0 * 256 + b1);
    assert(be_value(s.take(3)) == (b0 * 256 + b1) * 256 + b2);
    assert(be_value(s.take(4)) == ((b0 * 256 + b1) * 256 + b2) * 256 + b3);
    assert(be_value(s.take(5)) == (((b0 * 256 + b1) * 256 + b2) * 256 + b3) * 256 + b4);
    assert(be_value(s.take(6)) == ((((b0 * 256 + b1) * 256 + b2) * 256 + b3) * 256 + b4) * 256 + b5);
    assert(be_value(s.take(7)) == (((((b0 * 256 + b1) * 256 + b2) * 256 + b3) * 256 + b4) * 256 + b5) * 256
        + b6);
}

/// A big-endian string of `n` bytes spells a number below `256^n`.
proof fn lemma_be_value_bound(bytes: Seq<u8>)
    ensures
        be_value(bytes) < pow(256, bytes.len()),
    decreases bytes.len(),
{
    if bytes.len() == 0 {
        reveal(pow);
    } else {
        let init = bytes.drop_last();
        lemma_be_value_bound(init);
        let p = pow(256, init.len());
        let v = be_value(init);
        assert(pow(256, bytes.len()) == 256 * p) by {
            reveal(pow);
        }
        assert(v * 256 + bytes.last() < 256 * p) by (nonlinear_arith)
            requires
                v < p,
                bytes.last() < 256,
        {}
    }
}

/// The leading byte of a big-endian string weighs `256^(n-1)`.
proof fn lemma_be_value_front(bytes: Seq<u8>)
    requires
        bytes.len() > 0,
    ensures
        be_value(bytes) == bytes[0] * pow(256, (bytes.len() - 1) as nat) + be_value(bytes.skip(1)),
    decreases bytes.len(),
{
    let n = bytes.len();
    if n == 1 {
        assert(bytes.drop_last() =~= Seq::<u8>::empty());
        assert(bytes.skip(1) =~= Seq::<u8>::empty());
        assert(pow(256, 0) == 1) by {
            reveal(pow);
        }
    } else {
        let init = bytes.drop_last();
        lemma_be_value_front(init);
        assert(init.skip(1) =~= bytes.skip(1).drop_last());
        assert(bytes.skip(1).last() == bytes.last());
        let p = pow(256, (n - 2) as nat);
        assert(pow(256, (n - 1) as nat) == 256 * p) by {
            reveal(pow);
        }
        let r = be_value(init.skip(1));
        let b0 = bytes[0] as int;
        assert((b0 * p + r) * 256 + bytes.last() == b0 * (256 * p) + (r * 256 + bytes.last())) by (nonlinear_arith);
    }
}

/// Byte order of equal-length big-endian strings is numeric order.
proof fn lemma_lex_is_numeric(a: Seq<u8>, b: Seq<u8>)
    requires
        a.len() == b.len(),
    ensures
        lex_lt(a, b) <==> be_value(a) < be_value(b),
    decreases a.len(),
{
    if a.len() > 0 {
        lemma_be_value_front(a);
        lemma_be_value_front(b);
        lemma_lex_is_numeric(a.skip(1), b.skip(1));
        lemma_be_value_bound(a.skip(1));
        lemma_be_value_bound(b.skip(1));
        let p = pow(256, (a.len() - 1) as nat);
        lemma_pow_positive(256, (a.len() - 1) as nat);
        let ra = be_value(a.skip(1)) as int;
        let rb = be_value(b.skip(1)) as int;
        let a0 = a[0] as int;
        let b0 = b[0] as int;
        if a0 < b0 {
            assert(a0 * p + ra < b0 * p + rb) by (nonlinear_arith)
                requires
                    a0 < b0,
                    0 <= ra < p,
                    0 <= rb,
            {}
        } else if a0 > b0 {
            assert(b0 * p + rb < a0 * p + ra) by (nonlinear_arith)
                requires
                    b0 < a0,
                    0 <= rb < p,
                    0 <= ra,
            {}
        }
    }
}

/// Keys of the slot-keyed column family scan in slot order: one slot's key
/// sorts before another's exactly when its slot is lower.
pub proof fn lemma_slot_keys_scan_in_slot_order(x: Slot, y: Slot)
    ensures
        (x < y) <==> lex_lt(be_bytes(x), be_bytes(y)),
{
    lemma_be_bytes_value(x);
    lemma_be_bytes_value(y);
    lemma_lex_is_numeric(be_bytes(x), be_bytes(y));
}

/// The eight big-endian bytes of `x`.
pub fn encode_be_u64(x: u64) -> (bytes: [u8; 8])
    ensures
        bytes@ == be_bytes(x),
{
    let bytes = [
        ((x >> 56u64) & 0xffu64) as u8,
        ((x >> 48u64) & 0xffu64) as u8,
        ((x >> 40u64) & 0xffu64) as u8,
        ((x >> 32u64) & 0xffu64) as u8,
        ((x >> 24u64) & 0xffu64) as u8,
        ((x >> 16u64) & 0xffu64) as u8,
        ((x >> 8u64) & 0xffu64) as u8,
        (x & 0xffu64) as u8,
    ];
    assert(bytes@ =~= be_bytes(x));
    bytes
}

/// The number eight big-endian bytes spell; `None` for any other length.
pub fn decode_be_u64(bytes: &[u8]) -> (x: Option<u64>)
    ensures
        bytes@.len() == 8 <==> x is Some,
        x matches Some(v) ==> v == be_value(bytes@),
{
    if bytes.len() != 8 {
        return None;
    }
    let mut acc: u64 = 0;
    let mut i: usize = 0;
    while i < 8
        invariant
            bytes@.len() == 8,
            i <= 8,
            acc == be_value(bytes@.take(i as int)),
        decreases 8 - i,
    {
        proof {
            lemma_be_value_bound(bytes@.take(i as int));
            vstd::arithmetic::power::lemma_pow_increases(256, i as nat, 7);
            assert(bytes@.take(i + 1).drop_last() =~= bytes@.take(i as int));
            let p = pow(256, i as nat);
            assert(pow(256, 7) == 0x100_0000_0000_0000) by {
                reveal_with_fuel(pow, 8);
            }
            assert(acc * 256 + bytes@[i as int] < 0x1_0000_0000_0000_0000) by (nonlinear_arith)
                requires
                    acc < p,
                    p <= 0x100_0000_0000_0000,
                    bytes@[i as int] < 256,
            {}
        }
        acc = acc * 256 + bytes[i] as u64;
        i = i + 1;
    }
    assert(bytes@.take(8) =~= bytes@);
    Some(acc)
}

/// The slot-keyed block store: key a big-endian slot, value an encoded
/// beacon block.
pub struct BeaconBlocksBySlotCf;

impl BeaconBlocksBySlotCf {
    /// The column family's name.
    pub fn name() -> (n: &'static str)
        ensures
            n == BEACON_BLOCKS_BY_SLOT_CF,
    {
        BEACON_BLOCKS_BY_SLOT_CF
    }

    /// The key of `slot`.
    pub fn encode_key(slot: Slot) -> (key: [u8; 8])
        ensures
            key@ == be_bytes(slot),
    {
        encode_be_u64(slot)
    }

    /// The slot a stored key names; `None` unless the key is eight bytes.
    pub fn decode_key(key: &[u8]) -> (slot: Option<Slot>)
        ensures
            key@.len() == 8 <==> slot is Some,
            slot matches Some(s) ==> s == be_value(key@),
    {
        decode_be_u64(key)
    }
}

/// The hash-to-slot index: key a 32-byte block hash, value a big-endian
/// slot.
pub struct BeaconHashToSlotCf;

impl BeaconHashToSlotCf {
    /// The column family's name.
    pub fn name() -> (n: &'static str)
        ensures
            n == BEACON_HASH_TO_SLOT_CF,
    {
        BEACON_HASH_TO_SLOT_CF
    }

    /// The stored value for `slot`.
    pub fn encode_value(slot: Slot) -> (value: [u8; 8])
        ensures
            value@ == be_bytes(slot),
    {
        encode_be_u64(slot)
    }

    /// The slot a stored value names; `None` unless the value is eight
    /// bytes.
    pub fn decode_value(value: &[u8]) -> (slot: Option<Slot>)
        ensures
            value@.len() == 8 <==> slot is Some,
            slot matches Some(s) ==> s == be_value(value@),
    {
        decode_be_u64(value)
    }
}

/// Decoding a slot's encoding gives the slot back.
pub proof fn lemma_slot_codec_round_trip(slot: Slot)
    ensures
        be_bytes(slot).len() == 8,
        be_value(be_bytes(slot)) == slot,
{
    lemma_be_bytes_value(slot);
}

} // verus!
