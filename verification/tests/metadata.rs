use udev_hid_bpf::btf::{Btf, BtfMember, BtfType, Metadata};
use udev_hid_bpf::modalias::{Bus, Group, Modalias};

fn member(name: &str, ty: u32) -> BtfMember {
    BtfMember { name: Some(name.to_string()), ty }
}

/// Adds a pointer to an array of the given capacity; gives the place of the pointer.
fn field(types: &mut Vec<BtfType>, capacity: u32) -> u32 {
    types.push(BtfType::Array { elem: 1, capacity });
    types.push(BtfType::Ptr { target: (types.len() - 1) as u32 });
    (types.len() - 1) as u32
}

/// Adds the struct of one device; gives its place.
fn entry(types: &mut Vec<BtfType>, prefix: &str, fields: &[(&str, u32)]) -> u32 {
    let mut members = vec![member(prefix, 1)];
    for (name, capacity) in fields {
        let ty = field(types, *capacity);
        members.push(member(&format!("{prefix}_{name}"), ty));
    }
    types.push(BtfType::Struct { members });
    (types.len() - 1) as u32
}

/// A table with the configuration section around the given union members.
fn table(build: impl FnOnce(&mut Vec<BtfType>) -> Vec<u32>) -> Btf {
    let mut types = vec![BtfType::Scalar, BtfType::Scalar];
    let entries = build(&mut types);
    let members = entries.iter().enumerate().map(|(i, ty)| member(&format!("entry{i}"), *ty)).collect();
    types.push(BtfType::Union { members });
    let union = (types.len() - 1) as u32;
    types.push(BtfType::Alias { target: union });
    types.push(BtfType::Alias { target: union + 1 });
    types.push(BtfType::Var { name: "_config".to_string(), ty: union + 2 });
    types.push(BtfType::DataSec { name: ".hid_bpf_config".to_string(), vars: vec![union + 3] });
    Btf { types }
}

#[test]
fn the_capacity_of_the_array_is_the_value() {
    let btf = table(|types| {
        vec![
            entry(types, "hid_bpf_config_0", &[("bus", 0x03), ("group", 0x01), ("vid", 0x045E), ("pid", 0x07A5)]),
            entry(types, "hid_bpf_config_1", &[("bus", 0x05), ("pid", 0xB01A), ("vid", 0x046D)]),
        ]
    });
    assert_eq!(
        btf.modaliases(),
        vec![
            Modalias { bus: Bus::USB, group: Group::Generic, vid: 0x045E, pid: 0x07A5 },
            Modalias { bus: Bus::Bluetooth, group: Group::Any, vid: 0x046D, pid: 0xB01A },
        ]
    );
    let metadata = Metadata::from_btf(&btf).unwrap();
    assert_eq!(metadata.modaliases(), btf.modaliases());
}

#[test]
fn an_object_without_the_section_declares_nothing() {
    let btf = Btf { types: vec![BtfType::Scalar, BtfType::Ptr { target: 0 }] };
    assert!(Metadata::from_btf(&btf).is_none());
    assert_eq!(btf.modaliases(), vec![]);

    let other_section = Btf {
        types: vec![
            BtfType::Scalar,
            BtfType::Union { members: vec![] },
            BtfType::Var { name: "x".to_string(), ty: 1 },
            BtfType::DataSec { name: ".data".to_string(), vars: vec![2] },
        ],
    };
    assert!(Metadata::from_btf(&other_section).is_none());
    assert_eq!(other_section.modaliases(), vec![]);
    assert_eq!(Btf { types: vec![] }.modaliases(), vec![]);
}

#[test]
fn a_section_without_a_union_declares_nothing() {
    let btf = Btf {
        types: vec![
            BtfType::Scalar,
            BtfType::Struct { members: vec![] },
            BtfType::Var { name: "x".to_string(), ty: 1 },
            BtfType::Var { name: "y".to_string(), ty: 0 },
            BtfType::DataSec { name: ".hid_bpf_config".to_string(), vars: vec![2, 3, 0, 99] },
        ],
    };
    assert!(Metadata::from_btf(&btf).is_none());
    assert_eq!(btf.modaliases(), vec![]);
}

#[test]
fn the_first_variable_with_a_union_counts() {
    let mut types = vec![BtfType::Scalar, BtfType::Scalar];
    let first = entry(&mut types, "a", &[("vid", 1)]);
    let second = entry(&mut types, "b", &[("vid", 2)]);
    types.push(BtfType::Union { members: vec![member("m", first)] });
    let u1 = (types.len() - 1) as u32;
    types.push(BtfType::Union { members: vec![member("m", second)] });
    let u2 = (types.len() - 1) as u32;
    types.push(BtfType::Var { name: "scalar".to_string(), ty: 1 });
    types.push(BtfType::Var { name: "second".to_string(), ty: u2 });
    types.push(BtfType::Var { name: "first".to_string(), ty: u1 });
    let n = types.len() as u32;
    types.push(BtfType::DataSec { name: ".hid_bpf_config".to_string(), vars: vec![n - 3, n - 2, n - 1] });
    let btf = Btf { types };
    assert_eq!(
        btf.modaliases(),
        vec![Modalias { bus: Bus::Any, group: Group::Any, vid: 2, pid: 0 }]
    );
}

#[test]
fn unknown_members_are_passed_over() {
    let btf = table(|types| {
        let ptr_to_scalar = {
            types.push(BtfType::Ptr { target: 1 });
            (types.len() - 1) as u32
        };
        let vid = field(types, 0x1234);
        let other = field(types, 0x9999);
        let bus = field(types, 0x18);
        types.push(BtfType::Struct {
            members: vec![
                member("cfg", 1),
                member("cfg_vid", vid),
                member("cfg_future", other),
                member("other_pid", other),
                member("cfg_pid", ptr_to_scalar),
                member("cfg_group", 1),
                BtfMember { name: None, ty: other },
                member("cfg_bus", bus),
                member("cfg_bus_", other),
            ],
        });
        vec![(types.len() - 1) as u32]
    });
    assert_eq!(
        btf.modaliases(),
        vec![Modalias { bus: Bus::I2C, group: Group::Any, vid: 0x1234, pid: 0 }]
    );
}

#[test]
fn a_malformed_entry_is_left_out() {
    let btf = table(|types| {
        let bad_bus = entry(types, "a", &[("bus", 0x07), ("vid", 1)]);
        let good = entry(types, "b", &[("group", 0x0102), ("vid", 2)]);
        let bad_group = entry(types, "c", &[("vid", 3), ("group", 0x05)]);
        types.push(BtfType::Struct { members: vec![BtfMember { name: None, ty: 1 }] });
        let nameless = (types.len() - 1) as u32;
        types.push(BtfType::Struct { members: vec![] });
        let empty = (types.len() - 1) as u32;
        vec![bad_bus, good, 0, bad_group, 4000, nameless, empty]
    });
    assert_eq!(
        btf.modaliases(),
        vec![
            Modalias { bus: Bus::Any, group: Group::LogitechDJ, vid: 2, pid: 0 },
            Modalias::new(),
        ]
    );
    assert_eq!(Metadata::from_btf_type_id(&btf, 0), None);
    assert_eq!(Metadata::from_btf_type_id(&btf, 4000), None);
}

#[test]
fn a_later_field_replaces_an_earlier_one() {
    let btf = table(|types| vec![entry(types, "x", &[("pid", 1), ("pid", 2), ("vid", 0xFFFF_FFFF)])]);
    assert_eq!(
        btf.modaliases(),
        vec![Modalias { bus: Bus::Any, group: Group::Any, vid: 0xFFFF_FFFF, pid: 2 }]
    );
}

#[test]
fn typedefs_that_never_end_hold_no_union() {
    let btf = Btf {
        types: vec![
            BtfType::Alias { target: 1 },
            BtfType::Alias { target: 0 },
            BtfType::Var { name: "loop".to_string(), ty: 0 },
            BtfType::DataSec { name: ".hid_bpf_config".to_string(), vars: vec![2] },
        ],
    };
    assert!(Metadata::from_btf(&btf).is_none());
}
