use udev_hid_bpf::modalias::{Bus, Group, Modalias, ModaliasError};

#[test]
fn parses_a_kernel_modalias() {
    let m = Modalias::from_str("hid:b0003g0001v0000045Ep000007A5").unwrap();
    assert_eq!(m.bus, Bus::USB);
    assert_eq!(m.group, Group::Generic);
    assert_eq!(m.vid, 0x045E);
    assert_eq!(m.pid, 0x07A5);
}

#[test]
fn parses_without_the_prefix_and_in_lower_case() {
    let m = Modalias::from_str("b0005g0102v0000046dp0000b01a").unwrap();
    assert_eq!(m, Modalias { bus: Bus::Bluetooth, group: Group::LogitechDJ, vid: 0x046D, pid: 0xB01A });
}

#[test]
fn writes_wildcards_as_a_glyph() {
    assert_eq!(String::from(Modalias::new()), "b*g*v*p*");
    let m = Modalias { bus: Bus::USB, group: Group::Any, vid: 0x045E, pid: 0 };
    assert_eq!(m.to_text(), "b0003g*v0000045Ep*");
    assert_eq!(String::from(m), "b0003g*v0000045Ep*");
}

#[test]
fn reads_back_what_it_wrote() {
    let all = [
        Modalias::new(),
        Modalias { bus: Bus::AmdSfh, group: Group::Vivaldi, vid: 0xFFFF_FFFF, pid: 1 },
        Modalias { bus: Bus::I2C, group: Group::Any, vid: 0, pid: 0xABCDEF },
        Modalias { bus: Bus::Any, group: Group::Wacom, vid: 0x56A, pid: 0 },
    ];
    for m in all {
        assert_eq!(Modalias::from_str(&m.to_text()), Ok(m));
    }
}

#[test]
fn writes_back_a_canonical_text_in_upper_case() {
    let text = "b0003g0001v0000abcdp00ef0123";
    let m = Modalias::from_str(text).unwrap();
    assert_eq!(m.to_text(), "b0003g0001v0000ABCDp00EF0123");
    let text = "b0018g*v000004f3p*";
    let m = Modalias::from_str(text).unwrap();
    assert_eq!(m.to_text(), "b0018g*v000004F3p*");
}

#[test]
fn rejects_a_wrong_length() {
    assert_eq!(Modalias::from_str("hid:empty"), Err(ModaliasError::MalformedModalias));
    assert_eq!(Modalias::from_str(""), Err(ModaliasError::MalformedModalias));
    assert_eq!(Modalias::from_str("b0003g0001v0000045Ep000007A"), Err(ModaliasError::MalformedModalias));
    assert_eq!(Modalias::from_str("b0003g0001v0000045Ep000007A55"), Err(ModaliasError::MalformedModalias));
    assert_eq!(Modalias::from_str("hid:hid:b0003g0001v0000045Ep000007A5"), Err(ModaliasError::MalformedModalias));
}

#[test]
fn rejects_a_character_that_is_no_digit() {
    assert_eq!(Modalias::from_str("b0003g0001v0000045Gp000007A5"), Err(ModaliasError::MalformedModalias));
    assert_eq!(Modalias::from_str("b+003g0001v0000045Ep000007A5"), Err(ModaliasError::MalformedModalias));
    assert_eq!(Modalias::from_str("b0003g0001v0000045Ep0000 7A5"), Err(ModaliasError::MalformedModalias));
    assert_eq!(Modalias::from_str("b0003g00*1v0000045Ep000007A5"), Err(ModaliasError::MalformedModalias));
    assert_eq!(Modalias::from_str("x0003g0001v0000045Ep000007A5"), Err(ModaliasError::MalformedModalias));
    assert_eq!(Modalias::from_str("B0003g0001v0000045Ep000007A5"), Err(ModaliasError::MalformedModalias));
}

#[test]
fn rejects_codes_that_name_nothing() {
    assert_eq!(Modalias::from_str("b0007g0001v0000045Ep000007A5"), Err(ModaliasError::UnknownBus));
    assert_eq!(Modalias::from_str("b0003g0005v0000045Ep000007A5"), Err(ModaliasError::UnknownGroup));
    assert_eq!(Modalias::from_str("b0021g0106v0000045Ep000007A5"), Err(ModaliasError::UnknownBus));
}

#[test]
fn a_zero_field_is_the_wildcard() {
    let m = Modalias::from_str("b0000g0000v00000000p00000000").unwrap();
    assert_eq!(m, Modalias::new());
    assert_eq!(Modalias::from_static_str("b*g*v*p*"), Ok(Modalias::new()));
}

#[test]
fn bus_and_group_codes() {
    assert_eq!(Bus::try_from(0x18usize), Ok(Bus::I2C));
    assert_eq!(Bus::try_from(0x20usize), Ok(Bus::AmdSfh));
    assert_eq!(Bus::try_from(0x07usize), Err("Invalid bus type"));
    assert_eq!(Group::try_from(0x0103usize), Ok(Group::Steam));
    assert_eq!(Group::try_from(0x05usize), Err("Invalid group type"));
    assert_eq!(usize::from(&Bus::SPI), 0x1C);
    assert_eq!(usize::from(&Group::Vivaldi), 0x0105);
    assert_eq!(Bus::Atari.code(), 0x1B);
    assert_eq!(String::from(Bus::USB), "0003");
    assert_eq!(String::from(Bus::Any), "*");
    assert_eq!(String::from(Group::RMI), "0100");
    assert_eq!(String::from(Group::Any), "*");
}
