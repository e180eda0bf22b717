use lionfs::pool::device::{DeviceRecord, DeviceState};
use lionfs::pool::health::DeviceHealthStats;
use lionfs::pool::manager::MultiDeviceManager;
use lionfs::pool::raid::{RaidEngine, RaidProfile};

#[test]
fn test_device_manager() {
    let mut manager = MultiDeviceManager::new();
    let record = DeviceRecord {
        dev_id: 1,
        uuid: [0; 16],
        capacity: 1000,
        state: DeviceState::Online as u8,
        role: 0,
        padding: [0; 6],
    };

    manager.add_device(record);
    assert!(manager.get_device(1).is_some());

    manager.set_device_state(1, DeviceState::Offline);
    let updated = manager.get_device(1).unwrap();
    assert_eq!(updated.state, DeviceState::Offline as u8);
}

#[test]
fn test_raid_engine_mapping() {
    // Test RAID 0 (Striping)
    let engine = RaidEngine::new(RaidProfile::Raid0, 16, 2);

    // Block 0 should map to device 0, physical block 0
    let map0 = engine.map_read(0);
    assert_eq!(map0[0], (0, 0));

    // Block 16 should map to device 1, physical block 0
    let map16 = engine.map_read(16);
    assert_eq!(map16[0], (1, 0));

    // Block 32 should map to device 0, physical block 16
    let map32 = engine.map_read(32);
    assert_eq!(map32[0], (0, 16));

    // Test RAID 1 (Mirroring)
    let mirror_engine = RaidEngine::new(RaidProfile::Raid1, 0, 2);
    let write_map = mirror_engine.map_write(10);
    assert_eq!(write_map.len(), 2);
    assert_eq!(write_map[0], (0, 10));
    assert_eq!(write_map[1], (1, 10));
}

#[test]
fn device_state_codes() {
    assert_eq!(DeviceState::Online.to_u8(), 0);
    assert_eq!(DeviceState::Spare.to_u8(), 4);
    assert_eq!(RaidProfile::Raid5.to_u8(), 5);
    assert_eq!(RaidProfile::Raid10.to_u8(), 10);
}

#[test]
fn unknown_device_state_change_is_ignored() {
    let mut manager = MultiDeviceManager::new();
    manager.set_device_state(9, DeviceState::Failed);
    assert!(manager.get_device(9).is_none());
}

#[test]
fn striping_offset_within_chunk() {
    let engine = RaidEngine::new(RaidProfile::Raid0, 4, 3);
    // stripe 5 -> device 2, row 1: physical 1 * 4 + 3
    assert_eq!(engine.map_write(23), vec![(2, 7)]);
    let single = RaidEngine::new(RaidProfile::Single, 0, 1);
    assert_eq!(single.map_read(42), vec![(0, 42)]);
    let parity = RaidEngine::new(RaidProfile::Raid6, 8, 4);
    assert_eq!(parity.map_write(42), vec![(0, 42)]);
}

#[test]
fn health_defaults() {
    let stats = DeviceHealthStats::default();
    assert_eq!(stats.read_errors, 0);
    assert_eq!(stats.temperature_c, 40);
}
