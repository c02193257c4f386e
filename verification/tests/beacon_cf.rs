use hyperscale::beacon_cf::{
    all_column_families, decode_be_u64, encode_be_u64, BeaconBlocksBySlotCf, BeaconHashToSlotCf, BEACON_BLOCKS_BY_SLOT_CF,
    BEACON_HASH_TO_SLOT_CF, DEFAULT_CF,
};

#[test]
fn column_family_names() {
    assert_eq!(all_column_families(), ["default", "beacon_blocks_by_slot", "beacon_hash_to_slot"]);
    assert_eq!(BeaconBlocksBySlotCf::name(), BEACON_BLOCKS_BY_SLOT_CF);
    assert_eq!(BeaconHashToSlotCf::name(), BEACON_HASH_TO_SLOT_CF);
    assert_eq!(DEFAULT_CF, "default");
}

#[test]
fn slots_encode_big_endian() {
    assert_eq!(encode_be_u64(0x0102_0304_0506_0708), [1, 2, 3, 4, 5, 6, 7, 8]);
    assert_eq!(BeaconBlocksBySlotCf::encode_key(1), [0, 0, 0, 0, 0, 0, 0, 1]);
    assert_eq!(BeaconHashToSlotCf::encode_value(256), [0, 0, 0, 0, 0, 0, 1, 0]);
    assert_eq!(encode_be_u64(u64::MAX), [0xff; 8]);
    for x in [0u64, 1, 255, 256, 65_535, 1 << 40, u64::MAX] {
        assert_eq!(encode_be_u64(x), x.to_be_bytes());
    }
}

#[test]
fn slot_keys_round_trip() {
    for x in [0u64, 7, 300, 1 << 33, u64::MAX - 1] {
        assert_eq!(BeaconBlocksBySlotCf::decode_key(&BeaconBlocksBySlotCf::encode_key(x)), Some(x));
        assert_eq!(BeaconHashToSlotCf::decode_value(&BeaconHashToSlotCf::encode_value(x)), Some(x));
    }
}

#[test]
fn keys_of_other_lengths_are_refused() {
    assert_eq!(decode_be_u64(&[]), None);
    assert_eq!(decode_be_u64(&[1, 2, 3]), None);
    assert_eq!(decode_be_u64(&[0; 9]), None);
}

#[test]
fn key_order_is_slot_order() {
    let slots = [0u64, 1, 255, 256, 1_000, 1 << 32, u64::MAX];
    for a in slots {
        for b in slots {
            let ka = BeaconBlocksBySlotCf::encode_key(a);
            let kb = BeaconBlocksBySlotCf::encode_key(b);
            assert_eq!(a < b, ka < kb);
        }
    }
}
