use aeropulse_ng::registry::{
    bind_channels, ChannelPlan, LibUsbProbe, SdrRole, SimulatedProbe, SysfsEntry, UsbDevice,
    UsbProbe,
};

fn entry(name: &str, vendor: &str, product: &str, serial: Option<&str>) -> SysfsEntry {
    SysfsEntry {
        name: name.into(),
        id_vendor: vendor.into(),
        id_product: product.into(),
        serial: serial.map(|s| s.to_string()),
    }
}

#[test]
fn binds_matching_serials() {
    let plan = ChannelPlan::default();
    let devices = SimulatedProbe.scan();
    let channels = bind_channels(&plan, &devices);
    assert_eq!(channels.len(), 3);
    assert!(channels.iter().all(|c| c.status.online));
    assert_eq!(channels[0].status.frequency_hz, 1_090_000_000);
}

#[test]
fn missing_dongle_reports_offline() {
    let plan = ChannelPlan::default();
    let channels = bind_channels(&plan, &[]);
    assert!(channels.iter().all(|c| !c.status.online));
}

#[test]
fn sysfs_probe_never_panics() {
    let probe = LibUsbProbe { entries: vec![entry("1-1", "", "", None)] };
    let _ = probe.scan();
}

#[test]
fn role_labels_and_frequencies() {
    assert_eq!(SdrRole::AdsB.channel_id(), "SDR-1");
    assert_eq!(SdrRole::Acars.channel_id(), "SDR-2");
    assert_eq!(SdrRole::TacScan.channel_id(), "SDR-3");
    assert_eq!(SdrRole::Acars.default_frequency_hz(), 131_550_000);
    assert_eq!(SdrRole::TacScan.default_frequency_hz(), 121_500_000);
    assert_eq!(SdrRole::AdsB.role_name(), "1090MHz ADS-B");
    assert_eq!(SdrRole::TacScan.role_name(), "VHF GUARD");
}

#[test]
fn bound_status_carries_port_and_lock() {
    let plan = ChannelPlan::default();
    let devices = SimulatedProbe.scan();
    let channels = bind_channels(&plan, &devices[1..]);
    assert!(!channels[0].status.online);
    assert_eq!(channels[0].status.usb_port, None);
    assert_eq!(channels[1].status.usb_port.as_deref(), Some("bus1-port3"));
    assert_eq!(channels[2].status.usb_port.as_deref(), Some("bus1-port5"));
    assert_eq!(channels[1].status.serial_lock, "00000002");
    assert_eq!(channels[1].status.channel_id, "SDR-2");
    assert_eq!(channels[1].status.role, "ACARS");
    assert_eq!(channels[1].status.sample_rate_sps, 2_400_000);
    assert_eq!(channels[2].role, SdrRole::TacScan);
}

#[test]
fn sysfs_snapshot_filters_and_sorts_dongles() {
    let probe = LibUsbProbe {
        entries: vec![
            entry("1-4", "0bda\n", "0x2838\n", Some(" ZZ99 \n")),
            entry("1-1", "046d", "0xc52b", Some("MOUSE")),
            entry("2-1.3", "0bda", "0x8832", Some("00000007")),
            entry("usb9", " 0bda ", "0x2832", None),
            entry("1-2", "0bda", "0x9999", Some("X")),
        ],
    };
    let found = probe.scan();
    let serials: Vec<&str> = found.iter().map(|d| d.serial.as_str()).collect();
    assert_eq!(serials, vec!["00000007", "ZZ99", "unbound-usb9"]);
    assert_eq!(
        found[0],
        UsbDevice { vendor_id: 0x0bda, product_id: 0x8832, serial: "00000007".into(), bus: 1, port: 3 }
    );
    assert_eq!(found[1].product_id, 0x2838);
    assert_eq!(found[1].port, 4);
    assert_eq!(found[2].product_id, 0x2832);
    assert_eq!(found[2].port, 9);
}

#[test]
fn equal_serials_keep_their_order() {
    let probe = LibUsbProbe {
        entries: vec![
            entry("1-5", "0bda", "0x8832", Some("B")),
            entry("1-6", "0bda", "0x8832", Some("A")),
            entry("1-7", "0bda", "0x8832", Some("B")),
        ],
    };
    let ports: Vec<u8> = probe.scan().iter().map(|d| d.port).collect();
    assert_eq!(ports, vec![6, 5, 7]);
}
