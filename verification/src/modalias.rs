//! The device-match descriptor: bus, group, vendor and product, each of which
//! may be a wildcard, and its fixed textual form
//! `b<BBBB>g<GGGG>v<VVVVVVVV>p<PPPPPPPP>`.

use crate::hex::{
    format_hex, hex_value, lemma_format_hex_chars, lemma_format_hex_len, lemma_parse_format_hex,
    lemma_parse_hex_accepts, lemma_parse_hex_ignores_case, lemma_parse_hex_total,
    lemma_pow16_values,
    matches_up_to_hex_case, parse_hex, pow16, push_hex, read_hex,
};
use crate::hidudev::{modalias_text, HidUdev};
use crate::text::{chars_of, string_of};
use vstd::prelude::*;
use vstd::std_specs::convert::{FromSpecImpl, TryFromSpecImpl};

verus! {

/// The bus on which a device sits.
#[derive(Debug, Clone, Copy, PartialEq, Eq, Hash, Structural)]
pub enum Bus {
    Any,
    PCI,
    ISAPnP,
    USB,
    HIL,
    Bluetooth,
    Virtual,
    ISA,
    I8042,
    XtKbd,
    Rs232,
    GamePort,
    ParPort,
    Amiga,
    ADB,
    I2C,
    Host,
    GSC,
    Atari,
    SPI,
    RMI,
    CEC,
    IntelIshtp,
    AmdSfh,
}

impl Bus {
    /// The bus's numeric code; the wildcard has code zero.
    pub open spec fn spec_code(self) -> nat {
        match self {
            Bus::Any => 0x00,
            Bus::PCI => 0x01,
            Bus::ISAPnP => 0x02,
            Bus::USB => 0x03,
            Bus::HIL => 0x04,
            Bus::Bluetooth => 0x05,
            Bus::Virtual => 0x06,
            Bus::ISA => 0x10,
            Bus::I8042 => 0x11,
            Bus::XtKbd => 0x12,
            Bus::Rs232 => 0x13,
            Bus::GamePort => 0x14,
            Bus::ParPort => 0x15,
            Bus::Amiga => 0x16,
            Bus::ADB => 0x17,
            Bus::I2C => 0x18,
            Bus::Host => 0x19,
            Bus::GSC => 0x1A,
            Bus::Atari => 0x1B,
            Bus::SPI => 0x1C,
            Bus::RMI => 0x1D,
            Bus::CEC => 0x1E,
            Bus::IntelIshtp => 0x1F,
            Bus::AmdSfh => 0x20,
        }
    }

    /// The bus that a numeric code names, if any.
    pub open spec fn of_code(code: nat) -> Option<Self> {
        if code == 0x00 {
            Some(Bus::Any)
        } else if code == 0x01 {
            Some(Bus::PCI)
        } else if code == 0x02 {
            Some(Bus::ISAPnP)
        } else if code == 0x03 {
            Some(Bus::USB)
        } else if code == 0x04 {
            Some(Bus::HIL)
        } else if code == 0x05 {
            Some(Bus::Bluetooth)
        } else if code == 0x06 {
            Some(Bus::Virtual)
        } else if code == 0x10 {
            Some(Bus::ISA)
        } else if code == 0x11 {
            Some(Bus::I8042)
        } else if code == 0x12 {
            Some(Bus::XtKbd)
        } else if code == 0x13 {
            Some(Bus::Rs232)
        } else if code == 0x14 {
            Some(Bus::GamePort)
        } else if code == 0x15 {
            Some(Bus::ParPort)
        } else if code == 0x16 {
            Some(Bus::Amiga)
        } else if code == 0x17 {
            Some(Bus::ADB)
        } else if code == 0x18 {
            Some(Bus::I2C)
        } else if code == 0x19 {
            Some(Bus::Host)
        } else if code == 0x1A {
            Some(Bus::GSC)
        } else if code == 0x1B {
            Some(Bus::Atari)
        } else if code == 0x1C {
            Some(Bus::SPI)
        } else if code == 0x1D {
            Some(Bus::RMI)
        } else if code == 0x1E {
            Some(Bus::CEC)
        } else if code == 0x1F {
            Some(Bus::IntelIshtp)
        } else if code == 0x20 {
            Some(Bus::AmdSfh)
        } else {
            None
        }
    }

    /// The bus's numeric code.
    pub fn code(&self) -> (r: u16)
        ensures
            r as nat == self.spec_code(),
    {
        match self {
            Bus::Any => 0x00,
            Bus::PCI => 0x01,
            Bus::ISAPnP => 0x02,
            Bus::USB => 0x03,
            Bus::HIL => 0x04,
            Bus::Bluetooth => 0x05,
            Bus::Virtual => 0x06,
            Bus::ISA => 0x10,
            Bus::I8042 => 0x11,
            Bus::XtKbd => 0x12,
            Bus::Rs232 => 0x13,
            Bus::GamePort => 0x14,
            Bus::ParPort => 0x15,
            Bus::Amiga => 0x16,
            Bus::ADB => 0x17,
            Bus::I2C => 0x18,
            Bus::Host => 0x19,
            Bus::GSC => 0x1A,
            Bus::Atari => 0x1B,
            Bus::SPI => 0x1C,
            Bus::RMI => 0x1D,
            Bus::CEC => 0x1E,
            Bus::IntelIshtp => 0x1F,
            Bus::AmdSfh => 0x20,
        }
    }

    /// Writes the bus as a field of the textual form: `*` for the wildcard,
    /// four upper-case hexadecimal digits otherwise.
    pub fn field_text(&self) -> (r: String)
        ensures
            r@ == field_text(self.spec_code(), 4),
    {
        let mut out: Vec<char> = Vec::new();
        push_field(&mut out, self.code() as u32, 4);
        string_of(&out)
    }
}

impl TryFrom<usize> for Bus {
    type Error = &'static str;

    fn try_from(sz: usize) -> (r: Result<Self, Self::Error>) {
        match sz {
            0x00 => Ok(Bus::Any),
            0x01 => Ok(Bus::PCI),
            0x02 => Ok(Bus::ISAPnP),
            0x03 => Ok(Bus::USB),
            0x04 => Ok(Bus::HIL),
            0x05 => Ok(Bus::Bluetooth),
            0x06 => Ok(Bus::Virtual),
            0x10 => Ok(Bus::ISA),
            0x11 => Ok(Bus::I8042),
            0x12 => Ok(Bus::XtKbd),
            0x13 => Ok(Bus::Rs232),
            0x14 => Ok(Bus::GamePort),
            0x15 => Ok(Bus::ParPort),
            0x16 => Ok(Bus::Amiga),
            0x17 => Ok(Bus::ADB),
            0x18 => Ok(Bus::I2C),
            0x19 => Ok(Bus::Host),
            0x1A => Ok(Bus::GSC),
            0x1B => Ok(Bus::Atari),
            0x1C => Ok(Bus::SPI),
            0x1D => Ok(Bus::RMI),
            0x1E => Ok(Bus::CEC),
            0x1F => Ok(Bus::IntelIshtp),
            0x20 => Ok(Bus::AmdSfh),
            _ => Err("Invalid bus type"),
        }
    }
}

impl TryFromSpecImpl<usize> for Bus {
    open spec fn obeys_try_from_spec() -> bool {
        true
    }

    open spec fn try_from_spec(sz: usize) -> Result<Self, &'static str> {
        match Bus::of_code(sz as nat) {
            Some(found) => Ok(found),
            None => Err("Invalid bus type"),
        }
    }
}

impl From<&Bus> for usize {
    fn from(value: &Bus) -> (r: usize) {
        value.code() as usize
    }
}

impl FromSpecImpl<&Bus> for usize {
    open spec fn obeys_from_spec() -> bool {
        true
    }

    open spec fn from_spec(value: &Bus) -> usize {
        value.spec_code() as usize
    }
}

impl From<Bus> for String {
    fn from(value: Bus) -> (r: String)
        ensures
            r@ == field_text(value.spec_code(), 4),
    {
        value.field_text()
    }
}

/// Two strings with the same characters need not be the same value to the
/// verifier, so the conversion is described by the characters of its result,
/// in the `ensures` of `from`.
impl FromSpecImpl<Bus> for String {
    open spec fn obeys_from_spec() -> bool {
        false
    }

    open spec fn from_spec(value: Bus) -> String {
        choose|s: String| s@ == field_text(value.spec_code(), 4)
    }
}

/// The functional group of a HID device.
#[derive(Debug, Clone, Copy, PartialEq, Eq, Hash, Structural)]
pub enum Group {
    Any,
    Generic,
    Multitouch,
    SensorHub,
    MultitouchWin8,
    RMI,
    Wacom,
    LogitechDJ,
    Steam,
    Logitech27mhz,
    Vivaldi,
}

impl Group {
    /// The group's numeric code; the wildcard has code zero.
    pub open spec fn spec_code(self) -> nat {
        match self {
            Group::Any => 0x00,
            Group::Generic => 0x01,
            Group::Multitouch => 0x02,
            Group::SensorHub => 0x03,
            Group::MultitouchWin8 => 0x04,
            Group::RMI => 0x100,
            Group::Wacom => 0x101,
            Group::LogitechDJ => 0x102,
            Group::Steam => 0x103,
            Group::Logitech27mhz => 0x104,
            Group::Vivaldi => 0x105,
        }
    }

    /// The group that a numeric code names, if any.
    pub open spec fn of_code(code: nat) -> Option<Self> {
        if code == 0x00 {
            Some(Group::Any)
        } else if code == 0x01 {
            Some(Group::Generic)
        } else if code == 0x02 {
            Some(Group::Multitouch)
        } else if code == 0x03 {
            Some(Group::SensorHub)
        } else if code == 0x04 {
            Some(Group::MultitouchWin8)
        } else if code == 0x100 {
            Some(Group::RMI)
        } else if code == 0x101 {
            Some(Group::Wacom)
        } else if code == 0x102 {
            Some(Group::LogitechDJ)
        } else if code == 0x103 {
            Some(Group::Steam)
        } else if code == 0x104 {
            Some(Group::Logitech27mhz)
        } else if code == 0x105 {
            Some(Group::Vivaldi)
        } else {
            None
        }
    }

    /// The group's numeric code.
    pub fn code(&self) -> (r: u16)
        ensures
            r as nat == self.spec_code(),
    {
        match self {
            Group::Any => 0x00,
            Group::Generic => 0x01,
            Group::Multitouch => 0x02,
            Group::SensorHub => 0x03,
            Group::MultitouchWin8 => 0x04,
            Group::RMI => 0x100,
            Group::Wacom => 0x101,
            Group::LogitechDJ => 0x102,
            Group::Steam => 0x103,
            Group::Logitech27mhz => 0x104,
            Group::Vivaldi => 0x105,
        }
    }

    /// Writes the group as a field of the textual form: `*` for the wildcard,
    /// four upper-case hexadecimal digits otherwise.
    pub fn field_text(&self) -> (r: String)
        ensures
            r@ == field_text(self.spec_code(), 4),
    {
        let mut out: Vec<char> = Vec::new();
        push_field(&mut out, self.code() as u32, 4);
        string_of(&out)
    }
}

impl TryFrom<usize> for Group {
    type Error = &'static str;

    fn try_from(sz: usize) -> (r: Result<Self, Self::Error>) {
        match sz {
            0x00 => Ok(Group::Any),
            0x01 => Ok(Group::Generic),
            0x02 => Ok(Group::Multitouch),
            0x03 => Ok(Group::SensorHub),
            0x04 => Ok(Group::MultitouchWin8),
            0x100 => Ok(Group::RMI),
            0x101 => Ok(Group::Wacom),
            0x102 => Ok(Group::LogitechDJ),
            0x103 => Ok(Group::Steam),
            0x104 => Ok(Group::Logitech27mhz),
            0x105 => Ok(Group::Vivaldi),
            _ => Err("Invalid group type"),
        }
    }
}

impl TryFromSpecImpl<usize> for Group {
    open spec fn obeys_try_from_spec() -> bool {
        true
    }

    open spec fn try_from_spec(sz: usize) -> Result<Self, &'static str> {
        match Group::of_code(sz as nat) {
            Some(found) => Ok(found),
            None => Err("Invalid group type"),
        }
    }
}

impl From<&Group> for usize {
    fn from(value: &Group) -> (r: usize) {
        value.code() as usize
    }
}

impl FromSpecImpl<&Group> for usize {
    open spec fn obeys_from_spec() -> bool {
        true
    }

    open spec fn from_spec(value: &Group) -> usize {
        value.spec_code() as usize
    }
}

impl From<Group> for String {
    fn from(value: Group) -> (r: String)
        ensures
            r@ == field_text(value.spec_code(), 4),
    {
        value.field_text()
    }
}

/// Two strings with the same characters need not be the same value to the
/// verifier, so the conversion is described by the characters of its result,
/// in the `ensures` of `from`.
impl FromSpecImpl<Group> for String {
    open spec fn obeys_from_spec() -> bool {
        false
    }

    open spec fn from_spec(value: Group) -> String {
        choose|s: String| s@ == field_text(value.spec_code(), 4)
    }
}
impl Bus {
    /// The name that the kernel's headers give the bus; the wildcard has none.
    pub open spec fn spec_kernel_name(self) -> Option<Seq<char>> {
        match self {
            Bus::Any => None,
            Bus::PCI => Some("BUS_PCI"@),
            Bus::ISAPnP => Some("BUS_ISAPNP"@),
            Bus::USB => Some("BUS_USB"@),
            Bus::HIL => Some("BUS_HIL"@),
            Bus::Bluetooth => Some("BUS_BLUETOOTH"@),
            Bus::Virtual => Some("BUS_VIRTUAL"@),
            Bus::ISA => Some("BUS_ISA"@),
            Bus::I8042 => Some("BUS_I8042"@),
            Bus::XtKbd => Some("BUS_XTKBD"@),
            Bus::Rs232 => Some("BUS_RS232"@),
            Bus::GamePort => Some("BUS_GAMEPORT"@),
            Bus::ParPort => Some("BUS_PARPORT"@),
            Bus::Amiga => Some("BUS_AMIGA"@),
            Bus::ADB => Some("BUS_ADB"@),
            Bus::I2C => Some("BUS_I2C"@),
            Bus::Host => Some("BUS_HOST"@),
            Bus::GSC => Some("BUS_GSC"@),
            Bus::Atari => Some("BUS_ATARI"@),
            Bus::SPI => Some("BUS_SPI"@),
            Bus::RMI => Some("BUS_RMI"@),
            Bus::CEC => Some("BUS_CEC"@),
            Bus::IntelIshtp => Some("BUS_INTEL_ISHTP"@),
            Bus::AmdSfh => Some("BUS_AMD_SFH"@),
        }
    }

    /// The name that the kernel's headers give the bus; the wildcard has none.
    pub fn kernel_name(&self) -> (r: Option<&'static str>)
        ensures
            match r {
                Some(name) => self.spec_kernel_name() == Some(name@),
                None => self.spec_kernel_name() is None,
            },
    {
        match self {
            Bus::Any => None,
            Bus::PCI => Some("BUS_PCI"),
            Bus::ISAPnP => Some("BUS_ISAPNP"),
            Bus::USB => Some("BUS_USB"),
            Bus::HIL => Some("BUS_HIL"),
            Bus::Bluetooth => Some("BUS_BLUETOOTH"),
            Bus::Virtual => Some("BUS_VIRTUAL"),
            Bus::ISA => Some("BUS_ISA"),
            Bus::I8042 => Some("BUS_I8042"),
            Bus::XtKbd => Some("BUS_XTKBD"),
            Bus::Rs232 => Some("BUS_RS232"),
            Bus::GamePort => Some("BUS_GAMEPORT"),
            Bus::ParPort => Some("BUS_PARPORT"),
            Bus::Amiga => Some("BUS_AMIGA"),
            Bus::ADB => Some("BUS_ADB"),
            Bus::I2C => Some("BUS_I2C"),
            Bus::Host => Some("BUS_HOST"),
            Bus::GSC => Some("BUS_GSC"),
            Bus::Atari => Some("BUS_ATARI"),
            Bus::SPI => Some("BUS_SPI"),
            Bus::RMI => Some("BUS_RMI"),
            Bus::CEC => Some("BUS_CEC"),
            Bus::IntelIshtp => Some("BUS_INTEL_ISHTP"),
            Bus::AmdSfh => Some("BUS_AMD_SFH"),
        }
    }
}

impl Group {
    /// The name that the kernel's headers give the group; the wildcard has none.
    pub open spec fn spec_kernel_name(self) -> Option<Seq<char>> {
        match self {
            Group::Any => None,
            Group::Generic => Some("HID_GROUP_GENERIC"@),
            Group::Multitouch => Some("HID_GROUP_MULTITOUCH"@),
            Group::SensorHub => Some("HID_GROUP_SENSOR_HUB"@),
            Group::MultitouchWin8 => Some("HID_GROUP_MULTITOUCH_WIN_8"@),
            Group::RMI => Some("HID_GROUP_RMI"@),
            Group::Wacom => Some("HID_GROUP_WACOM"@),
            Group::LogitechDJ => Some("HID_GROUP_LOGITECH_DJ_DEVICE"@),
            Group::Steam => Some("HID_GROUP_STEAM"@),
            Group::Logitech27mhz => Some("HID_GROUP_LOGITECH_27MHZ_DEVICE"@),
            Group::Vivaldi => Some("HID_GROUP_VIVALDI"@),
        }
    }

    /// The name that the kernel's headers give the group; the wildcard has none.
    pub fn kernel_name(&self) -> (r: Option<&'static str>)
        ensures
            match r {
                Some(name) => self.spec_kernel_name() == Some(name@),
                None => self.spec_kernel_name() is None,
            },
    {
        match self {
            Group::Any => None,
            Group::Generic => Some("HID_GROUP_GENERIC"),
            Group::Multitouch => Some("HID_GROUP_MULTITOUCH"),
            Group::SensorHub => Some("HID_GROUP_SENSOR_HUB"),
            Group::MultitouchWin8 => Some("HID_GROUP_MULTITOUCH_WIN_8"),
            Group::RMI => Some("HID_GROUP_RMI"),
            Group::Wacom => Some("HID_GROUP_WACOM"),
            Group::LogitechDJ => Some("HID_GROUP_LOGITECH_DJ_DEVICE"),
            Group::Steam => Some("HID_GROUP_STEAM"),
            Group::Logitech27mhz => Some("HID_GROUP_LOGITECH_27MHZ_DEVICE"),
            Group::Vivaldi => Some("HID_GROUP_VIVALDI"),
        }
    }
}

/// Why a text is no device-match descriptor.
#[derive(Debug, Clone, Copy, PartialEq, Eq, Hash, Structural)]
pub enum ModaliasError {
    /// The text does not have the shape `b####g####v########p########`.
    MalformedModalias,
    /// The bus field holds a number that names no bus.
    UnknownBus,
    /// The group field holds a number that names no group.
    UnknownGroup,
}

/// A device-match descriptor. A field that matches anything holds the wildcard:
/// `Bus::Any`, `Group::Any`, or zero for the vendor and the product.
#[derive(Debug, Clone, Copy, PartialEq, Eq, Hash, Structural)]
pub struct Modalias {
    pub bus: Bus,
    pub group: Group,
    pub vid: u32,
    pub pid: u32,
}

/// The prefix that the kernel puts before a descriptor.
pub open spec fn hid_prefix() -> Seq<char> {
    seq!['h', 'i', 'd', ':']
}

/// The text without one leading `hid:`, if it has one.
pub open spec fn strip_hid(text: Seq<char>) -> Seq<char> {
    if text.len() >= 4 && text.take(4) == hid_prefix() {
        text.skip(4)
    } else {
        text
    }
}

/// One field as the textual form writes it: `*` for the wildcard value zero,
/// `width` upper-case hexadecimal digits otherwise.
pub open spec fn field_text(value: nat, width: nat) -> Seq<char> {
    if value == 0 {
        seq!['*']
    } else {
        format_hex(value, width)
    }
}

/// Reads the field that starts at `pos` with the letter `marker`: the letter,
/// then either `*` or `width` hexadecimal digits. Gives the field's value
/// (zero for `*`) and the position behind it.
pub open spec fn field_at(s: Seq<char>, pos: int, marker: char, width: nat) -> Option<(nat, int)> {
    if 0 <= pos && pos + 1 < s.len() && s[pos] == marker {
        if s[pos + 1] == '*' {
            Some((0, pos + 2))
        } else if pos + 1 + width <= s.len() {
            match parse_hex(s.subrange(pos + 1, pos + 1 + width)) {
                Some(value) => Some((value, pos + 1 + width)),
                None => None,
            }
        } else {
            None
        }
    } else {
        None
    }
}

/// The position behind the field that starts at `pos`.
pub open spec fn field_end(s: Seq<char>, pos: int, marker: char, width: nat) -> int {
    match field_at(s, pos, marker, width) {
        Some((_, next)) => next,
        None => pos,
    }
}

/// The four numbers of a text of the shape `b####g####v########p########`, in
/// which `*` may stand for the digits of any field; `None` for any other text.
pub open spec fn parse_fields(s: Seq<char>) -> Option<(nat, nat, nat, nat)> {
    match field_at(s, 0, 'b', 4) {
        Some((bus, after_bus)) => match field_at(s, after_bus, 'g', 4) {
            Some((group, after_group)) => match field_at(s, after_group, 'v', 8) {
                Some((vid, after_vid)) => match field_at(s, after_vid, 'p', 8) {
                    Some((pid, end)) => if end == s.len() {
                        Some((bus, group, vid, pid))
                    } else {
                        None
                    },
                    None => None,
                },
                None => None,
            },
            None => None,
        },
        None => None,
    }
}

/// What a text means as a descriptor.
pub open spec fn parse_spec(text: Seq<char>) -> Result<Modalias, ModaliasError> {
    match parse_fields(strip_hid(text)) {
        None => Err(ModaliasError::MalformedModalias),
        Some((bus, group, vid, pid)) => match Bus::of_code(bus) {
            None => Err(ModaliasError::UnknownBus),
            Some(bus) => match Group::of_code(group) {
                None => Err(ModaliasError::UnknownGroup),
                Some(group) => Ok(Modalias { bus, group, vid: vid as u32, pid: pid as u32 }),
            },
        },
    }
}

/// The textual form of four field values.
pub open spec fn format_fields(bus: nat, group: nat, vid: nat, pid: nat) -> Seq<char> {
    seq!['b'] + field_text(bus, 4) + seq!['g'] + field_text(group, 4) + seq!['v'] + field_text(
        vid,
        8,
    ) + seq!['p'] + field_text(pid, 8)
}

/// The textual form of a descriptor.
pub open spec fn format_spec(m: Modalias) -> Seq<char> {
    format_fields(m.bus.spec_code(), m.group.spec_code(), m.vid as nat, m.pid as nat)
}

/// Appends one field to `out`: `*` for zero, `width` hexadecimal digits otherwise.
fn push_field(out: &mut Vec<char>, value: u32, width: usize)
    ensures
        final(out)@ == old(out)@ + field_text(value as nat, width as nat),
{
    if value == 0 {
        out.push('*');
        proof {
            assert(out@ =~= old(out)@ + field_text(value as nat, width as nat));
        }
    } else {
        push_hex(out, value, width);
    }
}

/// Reads the field at `pos`.
fn read_field(chars: &Vec<char>, pos: usize, marker: char, width: usize) -> (r: Option<
    (u32, usize),
>)
    requires
        pos <= chars.len(),
        width <= 8,
    ensures
        match r {
            Some((value, next)) => next <= chars.len() && field_at(
                chars@,
                pos as int,
                marker,
                width as nat,
            ) == Some((value as nat, next as int)),
            None => field_at(chars@, pos as int, marker, width as nat) is None,
        },
{
    let n = chars.len();
    if n < 2 || pos > n - 2 || chars[pos] != marker {
        return None;
    }
    if chars[pos + 1] == '*' {
        return Some((0, pos + 2));
    }
    if width > n - pos - 1 {
        return None;
    }
    match read_hex(chars, pos + 1, pos + 1 + width) {
        Some(value) => Some((value, pos + 1 + width)),
        None => None,
    }
}

/// Drops one leading `hid:` from the characters, if it is there.
fn body_start(chars: &Vec<char>) -> (start: usize)
    ensures
        start <= chars.len(),
        chars@.skip(start as int) == strip_hid(chars@),
{
    if chars.len() >= 4 && chars[0] == 'h' && chars[1] == 'i' && chars[2] == 'd' && chars[3]
        == ':' {
        proof {
            assert(chars@.take(4) =~= hid_prefix());
        }
        4
    } else {
        proof {
            if chars.len() >= 4 {
                let head = chars@.take(4);
                assert(head[0] == chars@[0] && head[1] == chars@[1] && head[2] == chars@[2]
                    && head[3] == chars@[3]);
                assert(hid_prefix()[0] == 'h' && hid_prefix()[1] == 'i' && hid_prefix()[2] == 'd'
                    && hid_prefix()[3] == ':');
            }
            assert(chars@.skip(0) =~= chars@);
        }
        0
    }
}

impl Modalias {
    /// The descriptor that matches every device.
    pub fn new() -> (r: Modalias)
        ensures
            r == (Modalias { bus: Bus::Any, group: Group::Any, vid: 0, pid: 0 }),
    {
        Modalias { bus: Bus::Any, group: Group::Any, vid: 0, pid: 0 }
    }

    /// Reads a descriptor. One leading `hid:` is dropped. What is left must be
    /// `b`, `g`, `v` and `p`, each followed by its field: four hexadecimal digits
    /// for the bus and the group, eight for the vendor and the product, in either
    /// case, or `*`.
    pub fn from_str(modalias: &str) -> (r: Result<Modalias, ModaliasError>)
        ensures
            r == parse_spec(modalias@),
    {
        let all = chars_of(modalias);
        let start = body_start(&all);
        let mut chars: Vec<char> = Vec::new();
        let mut i: usize = start;
        while i < all.len()
            invariant
                start <= i <= all.len(),
                chars@ == all@.subrange(start as int, i as int),
            decreases all.len() - i,
        {
            chars.push(all[i]);
            i = i + 1;
            proof {
                assert(chars@ =~= all@.subrange(start as int, i as int));
            }
        }
        proof {
            assert(all@.subrange(start as int, all.len() as int) =~= all@.skip(start as int));
        }
        Self::from_fields(&chars)
    }

    /// Reads a descriptor from a text that the program itself holds.
    pub fn from_static_str(modalias: &'static str) -> (r: Result<Modalias, ModaliasError>)
        ensures
            r == parse_spec(modalias@),
    {
        Self::from_str(modalias)
    }

    /// Reads the descriptor of a device from its property `MODALIAS`; a device
    /// without the property has none.
    pub fn from_udev_device(udev_device: &HidUdev) -> (r: Result<Modalias, ModaliasError>)
        ensures
            r == parse_spec(modalias_text(udev_device@.properties)),
    {
        udev_device.modalias()
    }

    /// Reads the four fields of a text from which the prefix is gone.
    fn from_fields(chars: &Vec<char>) -> (r: Result<Modalias, ModaliasError>)
        ensures
            r == match parse_fields(chars@) {
                None => Err(ModaliasError::MalformedModalias),
                Some((bus, group, vid, pid)) => match Bus::of_code(bus) {
                    None => Err(ModaliasError::UnknownBus),
                    Some(bus) => match Group::of_code(group) {
                        None => Err(ModaliasError::UnknownGroup),
                        Some(group) => Ok(
                            Modalias { bus, group, vid: vid as u32, pid: pid as u32 },
                        ),
                    },
                },
            },
    {
        let (bus, after_bus) = match read_field(chars, 0, 'b', 4) {
            Some(found) => found,
            None => return Err(ModaliasError::MalformedModalias),
        };
        let (group, after_group) = match read_field(chars, after_bus, 'g', 4) {
            Some(found) => found,
            None => return Err(ModaliasError::MalformedModalias),
        };
        let (vid, after_vid) = match read_field(chars, after_group, 'v', 8) {
            Some(found) => found,
            None => return Err(ModaliasError::MalformedModalias),
        };
        let (pid, end) = match read_field(chars, after_vid, 'p', 8) {
            Some(found) => found,
            None => return Err(ModaliasError::MalformedModalias),
        };
        if end != chars.len() {
            return Err(ModaliasError::MalformedModalias);
        }
        let bus = match Bus::try_from(bus as usize) {
            Ok(found) => found,
            Err(_) => return Err(ModaliasError::UnknownBus),
        };
        let group = match Group::try_from(group as usize) {
            Ok(found) => found,
            Err(_) => return Err(ModaliasError::UnknownGroup),
        };
        Ok(Modalias { bus, group, vid, pid })
    }

    /// Writes the descriptor in its textual form.
    pub fn to_text(&self) -> (r: String)
        ensures
            r@ == format_spec(*self),
    {
        let mut out: Vec<char> = Vec::new();
        out.push('b');
        push_field(&mut out, self.bus.code() as u32, 4);
        out.push('g');
        push_field(&mut out, self.group.code() as u32, 4);
        out.push('v');
        push_field(&mut out, self.vid, 8);
        out.push('p');
        push_field(&mut out, self.pid, 8);
        proof {
            assert(out@ =~= format_spec(*self));
        }
        string_of(&out)
    }
}

impl From<Modalias> for String {
    fn from(modalias: Modalias) -> (r: String)
        ensures
            r@ == format_spec(modalias),
    {
        modalias.to_text()
    }
}

/// As for the bus and the group: the `ensures` of `from` gives the characters.
impl FromSpecImpl<Modalias> for String {
    open spec fn obeys_from_spec() -> bool {
        false
    }

    open spec fn from_spec(modalias: Modalias) -> String {
        choose|s: String| s@ == format_spec(modalias)
    }
}

/// Reading a field that was written gives its value back, whatever stands
/// before and behind it.
proof fn lemma_field_written(
    prefix: Seq<char>,
    marker: char,
    value: nat,
    width: nat,
    suffix: Seq<char>,
)
    requires
        0 < width,
        value < pow16(width),
    ensures
        field_at(
            prefix + seq![marker] + field_text(value, width) + suffix,
            prefix.len() as int,
            marker,
            width,
        ) == Some((value, (prefix.len() + 1 + field_text(value, width).len()) as int)),
{
    let s = prefix + seq![marker] + field_text(value, width) + suffix;
    let pos = prefix.len() as int;
    assert(s[pos] == marker);
    if value == 0 {
        assert(s[pos + 1] == '*');
    } else {
        lemma_format_hex_chars(value, width, 0);
        assert(s[pos + 1] == format_hex(value, width)[0]);
        assert(s.subrange(pos + 1, pos + 1 + width) =~= format_hex(value, width));
        lemma_parse_format_hex(value, width);
    }
}

/// In the written form of four field values, the bus reads as it was written.
proof fn lemma_bus_written(bus: nat, group: nat, vid: nat, pid: nat)
    requires
        bus < pow16(4),
    ensures
        field_at(format_fields(bus, group, vid, pid), 0, 'b', 4) == Some(
            (bus, (1 + field_text(bus, 4).len()) as int),
        ),
{
    let e = Seq::<char>::empty();
    let rest = seq!['g'] + field_text(group, 4) + seq!['v'] + field_text(vid, 8) + seq!['p']
        + field_text(pid, 8);
    lemma_field_written(e, 'b', bus, 4, rest);
    assert(e + seq!['b'] + field_text(bus, 4) + rest =~= format_fields(bus, group, vid, pid));
}

/// In the written form of four field values, the group reads as it was
/// written.
proof fn lemma_group_written(bus: nat, group: nat, vid: nat, pid: nat)
    requires
        group < pow16(4),
    ensures
        field_at(
            format_fields(bus, group, vid, pid),
            (1 + field_text(bus, 4).len()) as int,
            'g',
            4,
        ) == Some((group, (2 + field_text(bus, 4).len() + field_text(group, 4).len()) as int)),
{
    let head = seq!['b'] + field_text(bus, 4);
    let rest = seq!['v'] + field_text(vid, 8) + seq!['p'] + field_text(pid, 8);
    lemma_field_written(head, 'g', group, 4, rest);
    assert(head + seq!['g'] + field_text(group, 4) + rest =~= format_fields(bus, group, vid, pid));
}

/// In the written form of four field values, the vendor reads as it was
/// written.
proof fn lemma_vid_written(bus: nat, group: nat, vid: nat, pid: nat)
    requires
        vid < pow16(8),
    ensures
        field_at(
            format_fields(bus, group, vid, pid),
            (2 + field_text(bus, 4).len() + field_text(group, 4).len()) as int,
            'v',
            8,
        ) == Some(
            (
                vid,
                (3 + field_text(bus, 4).len() + field_text(group, 4).len() + field_text(
                    vid,
                    8,
                ).len()) as int,
            ),
        ),
{
    let head = seq!['b'] + field_text(bus, 4) + seq!['g'] + field_text(group, 4);
    let rest = seq!['p'] + field_text(pid, 8);
    lemma_field_written(head, 'v', vid, 8, rest);
    assert(head + seq!['v'] + field_text(vid, 8) + rest =~= format_fields(bus, group, vid, pid));
}

/// In the written form of four field values, the product reads as it was
/// written, and the text ends behind it.
proof fn lemma_pid_written(bus: nat, group: nat, vid: nat, pid: nat)
    requires
        pid < pow16(8),
    ensures
        field_at(
            format_fields(bus, group, vid, pid),
            (3 + field_text(bus, 4).len() + field_text(group, 4).len() + field_text(vid, 8).len())
                as int,
            'p',
            8,
        ) == Some((pid, format_fields(bus, group, vid, pid).len() as int)),
        format_fields(bus, group, vid, pid).len() >= 8,
        format_fields(bus, group, vid, pid)[0] == 'b',
{
    let e = Seq::<char>::empty();
    let head = seq!['b'] + field_text(bus, 4) + seq!['g'] + field_text(group, 4) + seq!['v']
        + field_text(vid, 8);
    lemma_field_written(head, 'p', pid, 8, e);
    assert(head + seq!['p'] + field_text(pid, 8) + e =~= format_fields(bus, group, vid, pid));
    lemma_format_hex_len(bus, 4);
    lemma_format_hex_len(group, 4);
    lemma_format_hex_len(vid, 8);
    lemma_format_hex_len(pid, 8);
}

/// Reading the written form of four field values gives the values back.
proof fn lemma_fields_of_format(bus: nat, group: nat, vid: nat, pid: nat)
    requires
        bus < pow16(4),
        group < pow16(4),
        vid < pow16(8),
        pid < pow16(8),
    ensures
        parse_fields(format_fields(bus, group, vid, pid)) == Some((bus, group, vid, pid)),
        format_fields(bus, group, vid, pid).len() >= 8,
        format_fields(bus, group, vid, pid)[0] == 'b',
{
    lemma_bus_written(bus, group, vid, pid);
    lemma_group_written(bus, group, vid, pid);
    lemma_vid_written(bus, group, vid, pid);
    lemma_pid_written(bus, group, vid, pid);
}

/// A code that a bus or a group has names that bus or group, and is small.
proof fn lemma_codes(m: Modalias)
    ensures
        Bus::of_code(m.bus.spec_code()) == Some(m.bus),
        Group::of_code(m.group.spec_code()) == Some(m.group),
        m.bus.spec_code() < 0x1_0000,
        m.group.spec_code() < 0x1_0000,
{
}

/// A text that starts with `b` has no `hid:` to drop.
proof fn lemma_no_prefix(text: Seq<char>)
    requires
        text.len() > 0,
        text[0] == 'b',
    ensures
        strip_hid(text) == text,
{
    if text.len() >= 4 {
        assert(text.take(4)[0] == 'b');
        assert(hid_prefix()[0] == 'h');
    }
}

/// Reading a written descriptor gives the descriptor back: for every
/// descriptor `m`, wildcard fields included, the text `format_spec(m)` parses
/// to `m`.
pub proof fn lemma_parse_of_format(m: Modalias)
    ensures
        parse_spec(format_spec(m)) == Ok::<Modalias, ModaliasError>(m),
{
    lemma_pow16_values();
    lemma_codes(m);
    lemma_fields_of_format(m.bus.spec_code(), m.group.spec_code(), m.vid as nat, m.pid as nat);
    lemma_no_prefix(format_spec(m));
}

/// The case of the hexadecimal letters does not change what a field reads as.
proof fn lemma_field_ignores_case(
    t: Seq<char>,
    canon: Seq<char>,
    pos: int,
    marker: char,
    width: nat,
)
    requires
        matches_up_to_hex_case(t, canon),
        !('A' <= marker && marker <= 'F'),
        field_at(canon, pos, marker, width) is Some,
    ensures
        field_at(t, pos, marker, width) == field_at(canon, pos, marker, width),
{
    assert(t[pos] == canon[pos] || ('A' <= canon[pos] && canon[pos] <= 'F'));
    assert(t[pos + 1] == canon[pos + 1] || ('a' <= t[pos + 1] && t[pos + 1] <= 'f' && 'A'
        <= canon[pos + 1] && canon[pos + 1] <= 'F'));
    if canon[pos + 1] != '*' {
        let ts = t.subrange(pos + 1, pos + 1 + width);
        let cs = canon.subrange(pos + 1, pos + 1 + width);
        assert(matches_up_to_hex_case(ts, cs)) by {
            assert forall|i: int| 0 <= i < ts.len() implies #[trigger] ts[i] == cs[i] || ('a'
                <= ts[i] && ts[i] <= 'f' && 'A' <= cs[i] && cs[i] <= 'F' && ts[i] as nat
                - 'a' as nat == cs[i] as nat - 'A' as nat) by {
                assert(ts[i] == t[pos + 1 + i]);
                assert(cs[i] == canon[pos + 1 + i]);
            }
        }
        lemma_parse_hex_ignores_case(ts, cs);
    }
}

/// A text that is a written descriptor but for the case of its hexadecimal
/// letters parses to that descriptor; so writing what was parsed gives the
/// text back with its letters in upper case.
pub proof fn lemma_format_of_parse(text: Seq<char>, m: Modalias)
    requires
        matches_up_to_hex_case(text, format_spec(m)),
    ensures
        parse_spec(text) == Ok::<Modalias, ModaliasError>(m),
{
    let c = format_spec(m);
    lemma_pow16_values();
    lemma_codes(m);
    lemma_fields_of_format(m.bus.spec_code(), m.group.spec_code(), m.vid as nat, m.pid as nat);
    lemma_no_prefix(c);
    lemma_parse_of_format(m);
    let after_bus = field_end(c, 0, 'b', 4);
    let after_group = field_end(c, after_bus, 'g', 4);
    let after_vid = field_end(c, after_group, 'v', 8);
    assert(field_at(text, 0, 'b', 4) == field_at(c, 0, 'b', 4)) by {
        lemma_field_ignores_case(text, c, 0, 'b', 4);
    }
    assert(field_at(text, after_bus, 'g', 4) == field_at(c, after_bus, 'g', 4)) by {
        lemma_field_ignores_case(text, c, after_bus, 'g', 4);
    }
    assert(field_at(text, after_group, 'v', 8) == field_at(c, after_group, 'v', 8)) by {
        lemma_field_ignores_case(text, c, after_group, 'v', 8);
    }
    assert(field_at(text, after_vid, 'p', 8) == field_at(c, after_vid, 'p', 8)) by {
        lemma_field_ignores_case(text, c, after_vid, 'p', 8);
    }
    assert(parse_fields(text) == parse_fields(c));
    assert(text[0] == 'b');
    lemma_no_prefix(text);
}

/// A character that may stand in a field or between two fields.
pub open spec fn is_shape_char(c: char) -> bool {
    hex_value(c) is Some || c == '*' || c == 'g' || c == 'v' || c == 'p'
}

/// What a field that reads takes up: its letter, then `*` or its digits.
proof fn lemma_field_extent(s: Seq<char>, pos: int, marker: char, width: nat)
    requires
        field_at(s, pos, marker, width) is Some,
    ensures
        ({
            let next = field_end(s, pos, marker, width);
            &&& 0 <= pos < next <= s.len()
            &&& s[pos] == marker
            &&& (s[pos + 1] == '*' && next == pos + 2) || (s[pos + 1] != '*' && next == pos + 1
                + width)
            &&& forall|i: int| pos < i < next ==> hex_value(#[trigger] s[i]) is Some || s[i] == '*'
        }),
{
    let next = field_end(s, pos, marker, width);
    if s[pos + 1] != '*' {
        let digits = s.subrange(pos + 1, pos + 1 + width);
        lemma_parse_hex_accepts(digits);
        assert forall|i: int| pos < i < next implies hex_value(#[trigger] s[i]) is Some by {
            assert(digits[i - pos - 1] == s[i]);
        }
    }
}

/// What parsing accepts: a text is malformed unless, with one leading `hid:`
/// gone, every character of it is a hexadecimal digit, `*` or the letter of a
/// field, it is at most 28 characters long, and it is exactly 28 characters
/// long where no field is `*`.
pub proof fn lemma_parse_shape(text: Seq<char>)
    requires
        parse_spec(text) != Err::<Modalias, ModaliasError>(ModaliasError::MalformedModalias),
    ensures
        8 <= strip_hid(text).len() <= 28,
        !strip_hid(text).contains('*') ==> strip_hid(text).len() == 28,
        forall|i: int| 0 <= i < strip_hid(text).len() ==> is_shape_char(#[trigger] strip_hid(text)[i]),
{
    let s = strip_hid(text);
    assert(parse_fields(s) is Some);
    lemma_field_extent(s, 0, 'b', 4);
    let after_bus = field_end(s, 0, 'b', 4);
    lemma_field_extent(s, after_bus, 'g', 4);
    let after_group = field_end(s, after_bus, 'g', 4);
    lemma_field_extent(s, after_group, 'v', 8);
    let after_vid = field_end(s, after_group, 'v', 8);
    lemma_field_extent(s, after_vid, 'p', 8);
    let end = field_end(s, after_vid, 'p', 8);
    assert(end == s.len());
    if !s.contains('*') {
        assert(s[1] != '*');
        assert(s[after_bus + 1] != '*');
        assert(s[after_group + 1] != '*');
        assert(s[after_vid + 1] != '*');
    }
    assert forall|i: int| 0 <= i < s.len() implies is_shape_char(#[trigger] s[i]) by {
        if i == 0 {
        } else if i < after_bus {
        } else if i == after_bus {
        } else if i < after_group {
        } else if i == after_group {
        } else if i < after_vid {
        } else if i == after_vid {
        } else {
        }
    }
}

/// A field as it may be written: `*`, or `width` hexadecimal digits.
#[verifier::opaque]
pub open spec fn is_field(f: Seq<char>, width: nat) -> bool {
    f == seq!['*'] || (f.len() == width && forall|i: int|
        0 <= i < f.len() ==> hex_value(#[trigger] f[i]) is Some)
}

/// The letters `b`, `g`, `v` and `p`, each before its field.
pub open spec fn shaped(bus: Seq<char>, group: Seq<char>, vid: Seq<char>, pid: Seq<char>) -> Seq<
    char,
> {
    seq!['b'] + bus + seq!['g'] + group + seq!['v'] + vid + seq!['p'] + pid
}

/// The text has the shape of a descriptor, `b####g####v########p########`, in
/// which `*` may stand for the digits of any field.
pub open spec fn has_shape(s: Seq<char>) -> bool {
    exists|bus: Seq<char>, group: Seq<char>, vid: Seq<char>, pid: Seq<char>|
        is_field(bus, 4) && is_field(group, 4) && is_field(vid, 8) && is_field(pid, 8)
            && #[trigger] shaped(bus, group, vid, pid) == s
}

/// A field that is written as it may be reads, whatever stands before and
/// behind it.
proof fn lemma_field_reads(
    prefix: Seq<char>,
    marker: char,
    f: Seq<char>,
    width: nat,
    suffix: Seq<char>,
)
    requires
        0 < width,
        is_field(f, width),
    ensures
        field_at(prefix + seq![marker] + f + suffix, prefix.len() as int, marker, width) is Some,
        field_end(prefix + seq![marker] + f + suffix, prefix.len() as int, marker, width)
            == prefix.len() + 1 + f.len(),
{
    reveal(is_field);
    let s = prefix + seq![marker] + f + suffix;
    let pos = prefix.len() as int;
    assert(s[pos] == marker);
    assert(s[pos + 1] == f[0]);
    if f == seq!['*'] {
        assert(f[0] == '*');
    } else {
        assert(hex_value(f[0]) is Some);
        assert(s.subrange(pos + 1, pos + 1 + width) =~= f);
        lemma_parse_hex_total(f);
    }
}

/// A text that reads has the shape of a descriptor.
proof fn lemma_shape_of_parsed(s: Seq<char>)
    requires
        parse_fields(s) is Some,
    ensures
        has_shape(s),
{
    let after_bus = field_end(s, 0, 'b', 4);
    let after_group = field_end(s, after_bus, 'g', 4);
    let after_vid = field_end(s, after_group, 'v', 8);
    let bus = s.subrange(1, after_bus);
    let group = s.subrange(after_bus + 1, after_group);
    let vid = s.subrange(after_group + 1, after_vid);
    let pid = s.subrange(after_vid + 1, s.len() as int);
    assert(is_field(bus, 4) && 0 < after_bus < s.len() && s[0] == 'b') by {
        lemma_field_is_field(s, 0, 'b', 4);
        lemma_field_bounds(s, 0, 'b', 4);
    }
    assert(is_field(group, 4) && after_bus < after_group < s.len() && s[after_bus] == 'g') by {
        lemma_field_is_field(s, after_bus, 'g', 4);
        lemma_field_bounds(s, after_bus, 'g', 4);
    }
    assert(is_field(vid, 8) && after_group < after_vid < s.len() && s[after_group] == 'v') by {
        lemma_field_is_field(s, after_group, 'v', 8);
        lemma_field_bounds(s, after_group, 'v', 8);
    }
    assert(is_field(pid, 8) && s[after_vid] == 'p') by {
        lemma_field_is_field(s, after_vid, 'p', 8);
        lemma_field_bounds(s, after_vid, 'p', 8);
    }
    assert(shaped(bus, group, vid, pid) =~= s);
}

/// Where a field that reads starts and ends.
proof fn lemma_field_bounds(s: Seq<char>, pos: int, marker: char, width: nat)
    requires
        field_at(s, pos, marker, width) is Some,
    ensures
        0 <= pos < field_end(s, pos, marker, width) <= s.len(),
        s[pos] == marker,
{
}

/// In a text with the letters before its fields, the bus reads.
proof fn lemma_bus_reads(bus: Seq<char>, group: Seq<char>, vid: Seq<char>, pid: Seq<char>)
    requires
        is_field(bus, 4),
    ensures
        field_at(shaped(bus, group, vid, pid), 0, 'b', 4) is Some,
        field_end(shaped(bus, group, vid, pid), 0, 'b', 4) == 1 + bus.len(),
{
    let e = Seq::<char>::empty();
    let rest = seq!['g'] + group + seq!['v'] + vid + seq!['p'] + pid;
    lemma_field_reads(e, 'b', bus, 4, rest);
    assert(e + seq!['b'] + bus + rest =~= shaped(bus, group, vid, pid));
}

/// In a text with the letters before its fields, the group reads.
proof fn lemma_group_reads(bus: Seq<char>, group: Seq<char>, vid: Seq<char>, pid: Seq<char>)
    requires
        is_field(group, 4),
    ensures
        field_at(shaped(bus, group, vid, pid), (1 + bus.len()) as int, 'g', 4) is Some,
        field_end(shaped(bus, group, vid, pid), (1 + bus.len()) as int, 'g', 4) == 2 + bus.len()
            + group.len(),
{
    let head = seq!['b'] + bus;
    let rest = seq!['v'] + vid + seq!['p'] + pid;
    lemma_field_reads(head, 'g', group, 4, rest);
    assert(head + seq!['g'] + group + rest =~= shaped(bus, group, vid, pid));
}

/// In a text with the letters before its fields, the vendor reads.
proof fn lemma_vid_reads(bus: Seq<char>, group: Seq<char>, vid: Seq<char>, pid: Seq<char>)
    requires
        is_field(vid, 8),
    ensures
        field_at(shaped(bus, group, vid, pid), (2 + bus.len() + group.len()) as int, 'v', 8) is Some,
        field_end(shaped(bus, group, vid, pid), (2 + bus.len() + group.len()) as int, 'v', 8) == 3
            + bus.len() + group.len() + vid.len(),
{
    let head = seq!['b'] + bus + seq!['g'] + group;
    let rest = seq!['p'] + pid;
    lemma_field_reads(head, 'v', vid, 8, rest);
    assert(head + seq!['v'] + vid + rest =~= shaped(bus, group, vid, pid));
}

/// In a text with the letters before its fields, the product reads, and the
/// text ends behind it.
proof fn lemma_pid_reads(bus: Seq<char>, group: Seq<char>, vid: Seq<char>, pid: Seq<char>)
    requires
        is_field(pid, 8),
    ensures
        field_at(shaped(bus, group, vid, pid), (3 + bus.len() + group.len() + vid.len()) as int, 'p', 8)
            is Some,
        field_end(shaped(bus, group, vid, pid), (3 + bus.len() + group.len() + vid.len()) as int, 'p', 8)
            == shaped(bus, group, vid, pid).len(),
{
    let e = Seq::<char>::empty();
    let head = seq!['b'] + bus + seq!['g'] + group + seq!['v'] + vid;
    lemma_field_reads(head, 'p', pid, 8, e);
    assert(head + seq!['p'] + pid + e =~= shaped(bus, group, vid, pid));
}

/// A text with the shape of a descriptor reads.
proof fn lemma_parsed_of_shape(s: Seq<char>)
    requires
        has_shape(s),
    ensures
        parse_fields(s) is Some,
{
    let (bus, group, vid, pid) = choose|
        bus: Seq<char>,
        group: Seq<char>,
        vid: Seq<char>,
        pid: Seq<char>,
    |
        is_field(bus, 4) && is_field(group, 4) && is_field(vid, 8) && is_field(pid, 8)
            && #[trigger] shaped(bus, group, vid, pid) == s;
    lemma_bus_reads(bus, group, vid, pid);
    lemma_group_reads(bus, group, vid, pid);
    lemma_vid_reads(bus, group, vid, pid);
    lemma_pid_reads(bus, group, vid, pid);
}

/// What parsing accepts, exactly: a text is malformed if and only if, with
/// one leading `hid:` gone, it does not have the shape of a descriptor. So a
/// text in which no field is `*` must be 28 characters long, and a character
/// in a field that is no hexadecimal digit, nor a `*` that is the whole field,
/// makes the text malformed.
pub proof fn lemma_parse_accepts_the_shape(text: Seq<char>)
    ensures
        parse_spec(text) == Err::<Modalias, ModaliasError>(ModaliasError::MalformedModalias)
            <==> !has_shape(strip_hid(text)),
{
    let s = strip_hid(text);
    if parse_fields(s) is Some {
        lemma_shape_of_parsed(s);
    }
    if has_shape(s) {
        lemma_parsed_of_shape(s);
    }
}

/// What stands behind the letter of a field that reads is a field as it may
/// be written.
proof fn lemma_field_is_field(s: Seq<char>, pos: int, marker: char, width: nat)
    requires
        field_at(s, pos, marker, width) is Some,
    ensures
        is_field(s.subrange(pos + 1, field_end(s, pos, marker, width)), width),
{
    reveal(is_field);
    lemma_field_extent(s, pos, marker, width);
    let next = field_end(s, pos, marker, width);
    let f = s.subrange(pos + 1, next);
    if s[pos + 1] == '*' {
        assert(f =~= seq!['*']);
    } else {
        lemma_parse_hex_accepts(f);
    }
}

} // verus!
