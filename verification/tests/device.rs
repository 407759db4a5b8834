use udev_hid_bpf::bpf::hid_bpf_probe_args;
use udev_hid_bpf::hidudev::{HidUdev, HidUdevProperty, ResolveError, UdevNode};
use udev_hid_bpf::modalias::{Bus, Group, Modalias, ModaliasError};

fn property(name: &str, value: &str) -> HidUdevProperty {
    HidUdevProperty { name: name.to_string(), value: value.to_string() }
}

fn node(syspath: &str, subsystem: Option<&str>, properties: Vec<HidUdevProperty>) -> UdevNode {
    UdevNode {
        syspath: syspath.to_string(),
        sysname: syspath.rsplit('/').next().unwrap().to_string(),
        subsystem: subsystem.map(|s| s.to_string()),
        properties,
    }
}

#[test]
fn a_hid_device_is_itself() {
    let chain = vec![
        node("/sys/devices/usb1/0003:045E:07A5.000B", Some("hid"), vec![property("HID_NAME", "Mouse")]),
        node("/sys/devices/usb1", Some("usb"), vec![]),
    ];
    let dev = HidUdev::from_syspath(&chain).unwrap();
    assert_eq!(dev.sysname(), "0003:045E:07A5.000B");
    assert_eq!(dev.syspath(), "/sys/devices/usb1/0003:045E:07A5.000B");
    assert_eq!(dev.id(), 0xB);
    assert_eq!(
        dev.report_descriptor_path(),
        "/sys/devices/usb1/0003:045E:07A5.000B/report_descriptor"
    );
    assert_eq!(dev.udev_properties().len(), 1);
    assert_eq!(dev.udev_properties()[0].name, "HID_NAME");
    assert_eq!(dev.udev_properties()[0].value, "Mouse");
}

#[test]
fn the_nearest_hid_ancestor_is_taken() {
    let chain = vec![
        node("/sys/devices/usb1/0003:04F3:2D4A.0001/hidraw/hidraw0", Some("hidraw"), vec![]),
        node("/sys/devices/usb1/0003:04F3:2D4A.0001/hidraw", None, vec![]),
        node("/sys/devices/usb1/0003:04F3:2D4A.0001", Some("hid"), vec![property("HID_BPF_A", "a.bpf.o")]),
        node("/sys/devices/usb1/0003:04F3:2D4A.0AFF", Some("hid"), vec![]),
    ];
    let dev = HidUdev::from_syspath(&chain).unwrap();
    assert_eq!(dev.sysname(), "0003:04F3:2D4A.0001");
    assert_eq!(dev.id(), 1);
    assert_eq!(dev.hid_bpf_properties(), vec!["a.bpf.o".to_string()]);
}

#[test]
fn a_path_without_a_hid_device_is_refused() {
    let chain = vec![
        node("/sys/devices/usb1/1-1", Some("usb"), vec![]),
        node("/sys/devices/usb1", Some("hidden"), vec![]),
        node("/sys/devices", None, vec![]),
    ];
    assert_eq!(HidUdev::from_syspath(&chain).err(), Some(ResolveError::NotAHidDevice));
    assert_eq!(HidUdev::from_syspath(&vec![]).err(), Some(ResolveError::NotAHidDevice));
}

#[test]
fn a_hid_device_has_its_number_in_its_name() {
    for name in ["hid0", "0003:045E:07A5.", "0003:045E:07A5.000G", "0003:045E:07A5.123456789"] {
        let chain = vec![UdevNode {
            syspath: format!("/sys/devices/{name}"),
            sysname: name.to_string(),
            subsystem: Some("hid".to_string()),
            properties: vec![],
        }];
        assert_eq!(HidUdev::from_syspath(&chain).err(), Some(ResolveError::MalformedSysname));
    }
    let chain = vec![node("/sys/devices/0005:046D:B01A.1A2b3C4d", Some("hid"), vec![])];
    assert_eq!(HidUdev::from_syspath(&chain).unwrap().id(), 0x1A2B3C4D);
}

#[test]
fn hints_are_the_values_of_the_reserved_prefix_in_order() {
    let chain = vec![node(
        "/sys/devices/0003:045E:07A5.000B",
        Some("hid"),
        vec![
            property("HID_BPF_20", "b.bpf.o"),
            property("HID_BPF", "no.bpf.o"),
            property("XHID_BPF_1", "no.bpf.o"),
            property("HID_BPF_", "empty-name.bpf.o"),
            property("HID_BPF_10", "a.bpf.o"),
            property("hid_bpf_10", "no.bpf.o"),
        ],
    )];
    let dev = HidUdev::from_syspath(&chain).unwrap();
    assert_eq!(
        dev.hid_bpf_properties(),
        vec!["b.bpf.o".to_string(), "empty-name.bpf.o".to_string(), "a.bpf.o".to_string()]
    );
    assert!(!dev.is_ignored());
}

#[test]
fn the_ignore_property_counts_whatever_its_value() {
    for value in ["", "0", "1", "no"] {
        let chain = vec![node(
            "/sys/devices/0003:045E:07A5.000B",
            Some("hid"),
            vec![property("HID_BPF_IGNORE_DEVICE", value)],
        )];
        assert!(HidUdev::from_syspath(&chain).unwrap().is_ignored());
    }
}

#[test]
fn the_modalias_comes_from_the_property() {
    let chain = vec![node(
        "/sys/devices/0003:045E:07A5.000B",
        Some("hid"),
        vec![property("MODALIAS", "hid:b0003g0001v0000045Ep000007A5")],
    )];
    let dev = HidUdev::from_syspath(&chain).unwrap();
    assert_eq!(
        dev.modalias(),
        Ok(Modalias { bus: Bus::USB, group: Group::Generic, vid: 0x45E, pid: 0x7A5 })
    );
    assert_eq!(Modalias::from_udev_device(&dev), dev.modalias());
    let bare = vec![node("/sys/devices/0003:045E:07A5.000B", Some("hid"), vec![])];
    assert_eq!(
        HidUdev::from_syspath(&bare).unwrap().modalias(),
        Err(ModaliasError::MalformedModalias)
    );
}

#[test]
fn a_given_property_takes_precedence() {
    let chain = vec![node(
        "/sys/devices/0003:045E:07A5.000B",
        Some("hid"),
        vec![
            property("HID_BPF_1", "device.bpf.o"),
            property("MODALIAS", "hid:b0003g0001v0000045Ep000007A5"),
            property("HID_NAME", "Mouse"),
        ],
    )];
    let dev = HidUdev::from_syspath(&chain).unwrap();
    let dev = dev.with_overrides(&[
        property("HID_BPF_1", "given.bpf.o"),
        property("HID_BPF_IGNORE_DEVICE", "1"),
    ]);
    assert_eq!(dev.hid_bpf_properties(), vec!["given.bpf.o".to_string(), "1".to_string()]);
    assert!(dev.is_ignored());
    let all: Vec<(String, String)> =
        dev.udev_properties().into_iter().map(|p| (p.name, p.value)).collect();
    assert_eq!(
        all,
        vec![
            ("HID_BPF_1".to_string(), "given.bpf.o".to_string()),
            ("HID_BPF_IGNORE_DEVICE".to_string(), "1".to_string()),
            ("MODALIAS".to_string(), "hid:b0003g0001v0000045Ep000007A5".to_string()),
            ("HID_NAME".to_string(), "Mouse".to_string()),
        ]
    );
    assert_eq!(dev.id(), 0xB);
}

#[test]
fn a_property_can_be_copied() {
    let p = property("A", "b");
    let q = HidUdevProperty::from(&p);
    assert_eq!(q.name, "A");
    assert_eq!(q.value, "b");
    let r = HidUdevProperty::try_from("NAME=some value").unwrap();
    assert_eq!(r.name, "NAME");
    assert_eq!(r.value, "some value");
    assert!(HidUdevProperty::try_from("NA ME=value").is_err());
}

#[test]
fn the_probe_gets_the_descriptor_in_a_padded_buffer() {
    let chain = vec![node("/sys/devices/0003:045E:07A5.000B", Some("hid"), vec![])];
    let dev = HidUdev::from_syspath(&chain).unwrap();
    let rdesc = [0x05u8, 0x01, 0x09, 0x02, 0xA1];
    let args = hid_bpf_probe_args::from(&dev, &rdesc);
    assert_eq!(args.hid, 0xB);
    assert_eq!(args.rdesc_size, 5);
    assert_eq!(args.retval, -1);
    assert_eq!(&args.rdesc[..5], &rdesc);
    assert!(args.rdesc[5..].iter().all(|b| *b == 0));
    assert_eq!(args.rdesc.len(), 4096);

    let long: Vec<u8> = (0..5000u32).map(|i| (i % 251) as u8 + 1).collect();
    let args = hid_bpf_probe_args::from(&dev, &long);
    assert_eq!(args.rdesc_size, 5000);
    assert_eq!(&args.rdesc[..], &long[..4096]);

    let args = hid_bpf_probe_args::from(&dev, &[]);
    assert_eq!(args.rdesc_size, 0);
    assert!(args.rdesc.iter().all(|b| *b == 0));
}
