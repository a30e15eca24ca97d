use kernel_mm::pci::{
    header_type_of, is_single_function, scan_all_bus, secondary_bus_of, vendor_id_of, ClassCode, Device,
    PciDevices,
    MAX_DEVICES,
};

#[test]
fn make_address_packs_fields() {
    assert_eq!(Device::new(1, 2, 3).make_address(0x08), 0x8001_1308);
    assert_eq!(Device::new(0, 0, 0).make_address(0), 0x8000_0000);
    assert_eq!(Device::new(0xff, 31, 7).make_address(0xfc), 0x80ff_fffc);
}

#[test]
fn class_code_splits_register() {
    let c = ClassCode::from_register(0x0604_0001);
    assert_eq!(c, ClassCode { base: 0x06, sub: 0x04, interface: 0x00, revision: 0x01 });
    assert!(c.is_pci_bridge());
    assert!(!ClassCode::from_register(0x0c03_3000).is_pci_bridge());
}

#[test]
fn register_fields() {
    assert_eq!(vendor_id_of(0x1237_8086), 0x8086);
    assert_eq!(header_type_of(0x0080_0000), 0x80);
    assert!(!is_single_function(0x80));
    assert!(is_single_function(0x00));
    assert_eq!(secondary_bus_of(0x0201), 0x02);
}

#[test]
fn device_table_stops_at_capacity() {
    let mut d = PciDevices::new();
    for i in 0..40u8 {
        d.add_device(Device::new(0, i % 32, 0));
    }
    assert_eq!(d.count(), MAX_DEVICES);
    assert_eq!(d.device(3), Device::new(0, 3, 0));
}

fn fake_config(address: u32) -> u32 {
    let bus = (address >> 16) & 0xff;
    let device = (address >> 11) & 0x1f;
    let function = (address >> 8) & 0x7;
    let reg = address & 0xff;
    match (bus, device, function, reg) {
        // single-function host bridge
        (0, 0, 0, 0x00) => 0x1237_8086,
        (0, 0, 0, 0x08) => 0x0600_0002,
        (0, 0, 0, 0x0c) => 0x0000_0000,
        // PCI-to-PCI bridge to bus 2
        (0, 1, 0, 0x00) => 0x0001_8086,
        (0, 1, 0, 0x08) => 0x0604_0000,
        (0, 1, 0, 0x0c) => 0x0001_0000,
        (0, 1, 0, 0x18) => 0x0000_0200,
        // multi-function device with functions 0 and 2
        (0, 3, 0, 0x00) => 0x24cd_8086,
        (0, 3, 0, 0x08) => 0x0c03_2000,
        (0, 3, 0, 0x0c) => 0x0080_0000,
        (0, 3, 2, 0x00) => 0x24ce_8086,
        (0, 3, 2, 0x08) => 0x0c03_0000,
        // device behind the bridge
        (2, 4, 0, 0x00) => 0x1000_1af4,
        (2, 4, 0, 0x08) => 0x0200_0000,
        (2, 4, 0, 0x0c) => 0x0000_0000,
        _ => 0xffff_ffff,
    }
}

fn found(d: &PciDevices) -> Vec<(u8, u8, u8)> {
    (0..d.count()).map(|i| {
        let dev = d.device(i);
        (dev.bus, dev.device, dev.function)
    }).collect()
}

#[test]
fn scan_all_bus_follows_bridges_and_functions() {
    let d = scan_all_bus(&fake_config);
    assert_eq!(found(&d), vec![(0, 0, 0), (0, 1, 0), (2, 4, 0), (0, 3, 0), (0, 3, 2)]);
}

#[test]
fn scan_bus_of_bridge_target_only() {
    let mut d = PciDevices::new();
    d.scan_bus(&fake_config, 2);
    assert_eq!(found(&d), vec![(2, 4, 0)]);
}

#[test]
fn scan_all_bus_with_multi_function_host_bridge() {
    let read = |address: u32| -> u32 {
        let bus = (address >> 16) & 0xff;
        let device = (address >> 11) & 0x1f;
        let function = (address >> 8) & 0x7;
        let reg = address & 0xff;
        match (bus, device, function, reg) {
            (0, 0, 0, 0x0c) => 0x0080_0000,
            (0, 0, 1, 0x00) => 0x1237_8086,
            (1, 5, 0, 0x00) => 0x1000_1af4,
            (1, 5, 0, 0x08) => 0x0200_0000,
            (1, 5, 0, 0x0c) => 0x0000_0000,
            _ => 0xffff_ffff,
        }
    };
    let d = scan_all_bus(&read);
    assert_eq!(found(&d), vec![(1, 5, 0)]);
}

#[test]
fn scan_stops_when_table_is_full() {
    let read = |address: u32| -> u32 {
        let reg = address & 0xff;
        match reg {
            0x00 => 0x1234_8086,
            0x08 => 0x0200_0000,
            _ => 0x0000_0000,
        }
    };
    let mut d = PciDevices::new();
    d.scan_bus(&read, 0);
    d.scan_bus(&read, 1);
    assert_eq!(d.count(), MAX_DEVICES);
    assert_eq!(d.device(31), Device::new(0, 31, 0));
}
