use udev_hid_bpf::bpf::{MapInfo, ObjectInfo, ProgramInfo, ProgramKind};
use udev_hid_bpf::btf::{Btf, BtfMember, BtfType};
use udev_hid_bpf::cli::{
    default_bpf_dirs, expected_notice, install_plan, is_object_file, sysname_from_syspath,
    sysname_if_matched, target_bpf_dirs, InstallError, InvalidSyspath,
};
use udev_hid_bpf::inspect::{
    device_entry, hid_device_entry, inspect, write_udev_rule, InspectionDevice,
};
use udev_hid_bpf::modalias::{Bus, Group, Modalias};

#[test]
fn test_sysname_resolution() {
    let syspath = "/sys/blah/1234";
    let sysname = sysname_from_syspath(syspath);
    assert!(sysname.is_err());

    let syspath = "/sys/blah/0003:04F3:2D4A.0001";
    let sysname = sysname_from_syspath(syspath);
    assert!(sysname.unwrap() == "0003:04F3:2D4A.0001");

    let syspath = "/sys/blah/0003:04F3:2D4A-0001";
    let sysname = sysname_from_syspath(syspath);
    assert!(sysname.is_err());

    // Only run this test if there's a local hidraw0 device
    let syspath = "/sys/class/hidraw/hidraw0/device";
    if std::path::Path::new(syspath).exists() {
        let target = std::path::Path::new(syspath).read_link().unwrap();
        let sysname = sysname_from_syspath(target.to_str().unwrap());
        assert!(sysname.is_ok());
    }
}

#[test]
fn a_sysname_is_found_anywhere_in_the_last_component() {
    assert_eq!(sysname_from_syspath("0003:04F3:2D4A.0001"), Ok("0003:04F3:2D4A.0001".to_string()));
    assert_eq!(sysname_from_syspath("/sys/blah/0003:04F3:2D4A.0001/"), Ok("0003:04F3:2D4A.0001".to_string()));
    assert_eq!(sysname_from_syspath("/sys/x0003:04F3:2D4A.0001y"), Ok("x0003:04F3:2D4A.0001y".to_string()));
    assert_eq!(sysname_from_syspath("/sys/ZZZZ:0000:AZ09.Q1W2"), Ok("ZZZZ:0000:AZ09.Q1W2".to_string()));
    assert_eq!(sysname_from_syspath("/sys/0003:04f3:2D4A.0001"), Err(InvalidSyspath));
    assert_eq!(sysname_from_syspath("/sys/0003:04F3:2D4A.001"), Err(InvalidSyspath));
    assert_eq!(sysname_from_syspath("/sys/0003:04F3:2D4A:0001"), Err(InvalidSyspath));
    assert_eq!(sysname_from_syspath("/sys/0003:04F3:2D4A.0001/hidraw"), Err(InvalidSyspath));
    assert_eq!(sysname_from_syspath("/sys/0003:04F3:2D4A.0001/.."), Err(InvalidSyspath));
    assert_eq!(sysname_from_syspath(""), Err(InvalidSyspath));
    assert_eq!(sysname_if_matched("n".to_string(), true), Ok("n".to_string()));
    assert_eq!(sysname_if_matched("n".to_string(), false), Err(InvalidSyspath));
}

#[test]
fn search_directories_are_parted_by_colons() {
    assert_eq!(default_bpf_dirs("/usr/local/lib/firmware/hid/bpf"), vec!["/usr/local/lib/firmware/hid/bpf"]);
    assert_eq!(default_bpf_dirs("/etc/a:/usr/b:/lib/c"), vec!["/etc/a", "/usr/b", "/lib/c"]);
    assert_eq!(default_bpf_dirs(""), vec![""]);
    assert_eq!(default_bpf_dirs("a::b:"), vec!["a", "", "b", ""]);
    assert_eq!(target_bpf_dirs(Some("/mine".to_string()), "/etc/a:/usr/b"), vec!["/mine", "/etc/a", "/usr/b"]);
    assert_eq!(target_bpf_dirs(None, "/etc/a:/usr/b"), vec!["/etc/a", "/usr/b"]);
}

#[test]
fn devices_are_shown_in_hexadecimal() {
    let d = InspectionDevice::from_modalias(&Modalias { bus: Bus::USB, group: Group::Wacom, vid: 0x56A, pid: 0 });
    assert_eq!(d.bus, "0x0003");
    assert_eq!(d.group, "0x0101");
    assert_eq!(d.vid, "0x056A");
    assert_eq!(d.pid, "0x0000");
    let d = InspectionDevice::from_modalias(&Modalias { bus: Bus::Any, group: Group::Any, vid: 0x1_2345, pid: 0xFFFF_FFFF });
    assert_eq!(d.bus, "0x0000");
    assert_eq!(d.vid, "0x12345");
    assert_eq!(d.pid, "0xFFFFFFFF");
    let d = InspectionDevice::from_modalias(&Modalias { bus: Bus::AmdSfh, group: Group::Any, vid: 0xABC_DEF0, pid: 0x10_0000 });
    assert_eq!(d.bus, "0x0020");
    assert_eq!(d.vid, "0xABCDEF0");
    assert_eq!(d.pid, "0x100000");
}

#[test]
fn an_object_is_inspected() {
    let btf = Btf {
        types: vec![
            BtfType::Scalar,
            BtfType::Array { elem: 0, capacity: 0x045E },
            BtfType::Ptr { target: 1 },
            BtfType::Struct {
                members: vec![
                    BtfMember { name: Some("e".to_string()), ty: 0 },
                    BtfMember { name: Some("e_vid".to_string()), ty: 2 },
                ],
            },
            BtfType::Union { members: vec![BtfMember { name: Some("m".to_string()), ty: 3 }] },
            BtfType::Var { name: "cfg".to_string(), ty: 4 },
            BtfType::DataSec { name: ".hid_bpf_config".to_string(), vars: vec![5] },
        ],
    };
    let object = ObjectInfo {
        programs: vec![ProgramInfo {
            name: "fix".to_string(),
            section: "fmod_ret/hid_bpf_rdesc_fixup".to_string(),
            kind: ProgramKind::Tracing,
        }],
        maps: vec![MapInfo { name: "m1".to_string(), struct_ops: false }],
    };
    let data = inspect("/lib/firmware/hid/bpf/0010-foo.bpf.o", &btf, &object);
    assert_eq!(data.filename, "0010-foo.bpf.o");
    assert_eq!(data.devices.len(), 1);
    assert_eq!(data.devices[0].bus, "0x0000");
    assert_eq!(data.devices[0].vid, "0x045E");
    assert_eq!(data.programs.len(), 1);
    assert_eq!(data.programs[0].name, "fix");
    assert_eq!(data.programs[0].section, "fmod_ret/hid_bpf_rdesc_fixup");
    assert_eq!(data.maps.len(), 1);
    assert_eq!(data.maps[0].name, "m1");
}

#[test]
fn the_udev_rule_runs_the_program_for_each_device() {
    let devices = [
        Modalias { bus: Bus::USB, group: Group::Generic, vid: 0x045E, pid: 0x07A5 },
        Modalias { bus: Bus::Any, group: Group::Any, vid: 0x046D, pid: 0 },
    ];
    let text = write_udev_rule("/usr/bin", "/etc/udev-hid-bpf/0010-foo.bpf.o", &devices);
    let expected = "# This udev rule was generated by udev-hid-bpf install\n\
ACTION!=\"add|remove\", GOTO=\"hid_bpf_end\"\n\
SUBSYSTEM!=\"hid\", GOTO=\"hid_bpf_end\"\n\
\n\
# 0010-foo.bpf.o \n\
ACTION==\"add\",ENV{MODALIAS}==\"hid:b0003g0001v0000045Ep000007A5\", RUN{program}+=\"/usr/bin/udev-hid-bpf add $sys$devpath /etc/udev-hid-bpf/0010-foo.bpf.o\"\n\
ACTION==\"remove\",ENV{MODALIAS}==\"hid:b0003g0001v0000045Ep000007A5\", RUN{program}+=\"/usr/bin/udev-hid-bpf remove $sys$devpath \"\n\
# 0010-foo.bpf.o \n\
ACTION==\"add\",ENV{MODALIAS}==\"hid:b*g*v0000046Dp*\", RUN{program}+=\"/usr/bin/udev-hid-bpf add $sys$devpath /etc/udev-hid-bpf/0010-foo.bpf.o\"\n\
ACTION==\"remove\",ENV{MODALIAS}==\"hid:b*g*v0000046Dp*\", RUN{program}+=\"/usr/bin/udev-hid-bpf remove $sys$devpath \"\n\
\n\
LABEL=\"hid_bpf_end\"\n";
    assert_eq!(text, expected);
    let empty = write_udev_rule("/usr/bin", "x.bpf.o", &[]);
    assert_eq!(
        empty,
        "# This udev rule was generated by udev-hid-bpf install\nACTION!=\"add|remove\", GOTO=\"hid_bpf_end\"\nSUBSYSTEM!=\"hid\", GOTO=\"hid_bpf_end\"\n\n\nLABEL=\"hid_bpf_end\"\n"
    );
}

#[test]
fn a_device_is_listed_by_the_names_of_the_kernel() {
    assert_eq!(
        hid_device_entry("hid:b0003g0001v0000045Ep000007A5"),
        Some("HID_DEVICE(BUS_USB, HID_GROUP_GENERIC, 0x045E, 0x07A5)".to_string())
    );
    assert_eq!(
        hid_device_entry("hid:b001Ag0104v0000ABCDp0000EF01"),
        Some("HID_DEVICE(BUS_GSC, HID_GROUP_LOGITECH_27MHZ_DEVICE, 0xABCD, 0xEF01)".to_string())
    );
    assert_eq!(
        hid_device_entry("hid:b0020g0105v00000001p00000002"),
        Some("HID_DEVICE(BUS_AMD_SFH, HID_GROUP_VIVALDI, 0x0001, 0x0002)".to_string())
    );
    assert_eq!(
        hid_device_entry("hid:b0000g0000v00000000p00000000"),
        Some("HID_DEVICE(0000, 0000, 0x0000, 0x0000)".to_string())
    );
    assert_eq!(
        hid_device_entry("hid:b00ZZg0099v0000QRSTp0000045E"),
        Some("HID_DEVICE(00ZZ, 0099, 0xQRST, 0x045E)".to_string())
    );
    assert_eq!(
        hid_device_entry("xxhid:hid:b0018g0004v000004F3p00002D4Atail"),
        Some("HID_DEVICE(BUS_I2C, HID_GROUP_MULTITOUCH_WIN_8, 0x04F3, 0x2D4A)".to_string())
    );
    assert_eq!(hid_device_entry("hid:b0003g0001v0001045Ep000007A5"), None);
    assert_eq!(hid_device_entry("hid:b0003g0001v0000045ep000007A5"), None);
    assert_eq!(hid_device_entry("b0003g0001v0000045Ep000007A5"), None);
    assert_eq!(hid_device_entry("hid:empty"), None);
    assert_eq!(hid_device_entry(""), None);
}

#[test]
fn bus_and_group_names() {
    assert_eq!(Bus::Bluetooth.kernel_name(), Some("BUS_BLUETOOTH"));
    assert_eq!(Bus::IntelIshtp.kernel_name(), Some("BUS_INTEL_ISHTP"));
    assert_eq!(Bus::Any.kernel_name(), None);
    assert_eq!(Group::SensorHub.kernel_name(), Some("HID_GROUP_SENSOR_HUB"));
    assert_eq!(Group::LogitechDJ.kernel_name(), Some("HID_GROUP_LOGITECH_DJ_DEVICE"));
    assert_eq!(Group::Any.kernel_name(), None);
}

#[test]
fn an_object_file_is_installed_beside_its_rule() {
    let plan = install_plan("/home/me/build/0010-foo.bpf.o", None, "/usr/local/bin", 2).unwrap();
    assert_eq!(plan.bindir, "/usr/local/bin");
    assert_eq!(plan.exe, "/usr/local/bin/udev-hid-bpf");
    assert_eq!(plan.target, "/etc/udev-hid-bpf/0010-foo.bpf.o");
    assert_eq!(plan.udev_rule, "/etc/udev/rules.d/99-hid-bpf-0010-foo.rules");
    let plan = install_plan("foo.bpf.o", Some("/opt/hid"), "/usr/local/bin", 1).unwrap();
    assert_eq!(plan.bindir, "/opt/hid/bin");
    assert_eq!(plan.exe, "/opt/hid/bin/udev-hid-bpf");
    assert_eq!(plan.udev_rule, "/etc/udev/rules.d/99-hid-bpf-foo.rules");
    assert_eq!(install_plan("foo.o", None, "/usr/bin", 1).err(), Some(InstallError::NotAnObject));
    assert_eq!(install_plan("foo.bpf.o", None, "/usr/bin", 0).err(), Some(InstallError::NoDevices));
    assert_eq!(install_plan("foo.bpf.c", None, "/usr/bin", 0).err(), Some(InstallError::NotAnObject));
}

#[test]
fn notices_of_the_loader_that_are_of_no_concern() {
    assert!(expected_notice("libbpf: elf: skipping unrecognized data section(7) .hid_bpf_config\n"));
    assert!(expected_notice("libbpf: elf: skipping relo section(8) .rel.hid_bpf_config for section(7)"));
    assert!(expected_notice(".hid_bpf_config: skipping unrecognized data section"));
    assert!(!expected_notice("libbpf: elf: skipping unrecognized data section(7) .data.foo"));
    assert!(!expected_notice("libbpf: prog 'probe': failed to load"));
    assert!(!expected_notice(""));
}

#[test]
fn object_files_end_in_bpf_o() {
    assert!(is_object_file("/lib/firmware/hid/bpf/0010-foo.bpf.o"));
    assert!(is_object_file(".bpf.o"));
    assert!(!is_object_file("0010-foo.bpf.c"));
    assert!(!is_object_file("0010-foo.o"));
    assert!(!is_object_file("0010-foo.bpf.o/"));
    assert!(!is_object_file("bpf.o"));
    assert!(!is_object_file(""));
}

fn groups(texts: &[Option<&str>]) -> Option<Vec<Option<String>>> {
    Some(texts.iter().map(|t| t.map(|s| s.to_string())).collect())
}

#[test]
fn a_line_is_made_of_what_was_captured() {
    let whole = Some("hid:b0003g0001v0000045Ep000007A5");
    assert_eq!(
        device_entry(&groups(&[whole, Some("0003"), Some("0001"), Some("045E"), Some("07A5")])),
        Some("HID_DEVICE(BUS_USB, HID_GROUP_GENERIC, 0x045E, 0x07A5)".to_string())
    );
    assert_eq!(
        device_entry(&groups(&[whole, Some("001a"), Some("3"), Some("x"), Some("")])),
        Some("HID_DEVICE(001a, 3, 0xx, 0x)".to_string())
    );
    assert_eq!(
        device_entry(&groups(&[whole, Some("0000"), Some("0106"), Some("1"), Some("2")])),
        Some("HID_DEVICE(0000, 0106, 0x1, 0x2)".to_string())
    );
    assert_eq!(device_entry(&groups(&[whole, Some("0003"), None, Some("045E"), Some("07A5")])), None);
    assert_eq!(device_entry(&groups(&[whole, Some("0003"), Some("0001"), Some("045E")])), None);
    assert_eq!(device_entry(&groups(&[])), None);
    assert_eq!(device_entry(&None), None);
}
