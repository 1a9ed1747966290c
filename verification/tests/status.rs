//! Status tables.
use flashdb::def::{KV_STATUS_NUM, SECTOR_STORE_STATUS_NUM, TSL_STATUS_NUM};
use flashdb::status::{get_status, set_status};

#[test]
fn set_then_get_roundtrip_kv() {
    for idx in 0..KV_STATUS_NUM {
        let mut t = [0u8; 1];
        set_status(&mut t, KV_STATUS_NUM, idx);
        assert_eq!(get_status(&t, KV_STATUS_NUM), idx, "kv status {idx}");
    }
}

#[test]
fn known_bit_patterns() {
    let mut t = [0u8; 1];
    // index 0 -> no write, table stays erased (0xFF), decodes to 0.
    assert_eq!(set_status(&mut t, KV_STATUS_NUM, 0), None);
    assert_eq!(t[0], 0xFF);
    // PRE_WRITE (1) -> 0x7F, WRITE (2) -> 0x3F.
    set_status(&mut t, KV_STATUS_NUM, 1);
    assert_eq!(t[0], 0x7F);
    set_status(&mut t, KV_STATUS_NUM, 2);
    assert_eq!(t[0], 0x3F);
}

#[test]
fn sector_store_states() {
    for idx in 0..SECTOR_STORE_STATUS_NUM {
        let mut t = [0u8; 1];
        set_status(&mut t, SECTOR_STORE_STATUS_NUM, idx);
        assert_eq!(get_status(&t, SECTOR_STORE_STATUS_NUM), idx);
    }
}

#[test]
fn log_states_round_trip() {
    for idx in 0..TSL_STATUS_NUM {
        let mut t = [0u8; 1];
        let place = set_status(&mut t, TSL_STATUS_NUM, idx);
        assert_eq!(place, if idx == 0 { None } else { Some(0) });
        assert_eq!(get_status(&t, TSL_STATUS_NUM), idx);
    }
}
