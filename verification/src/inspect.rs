//! What an object file declares, for listing and for installing: the devices
//! as hexadecimal texts, the programs and the maps, and the udev rule that
//! loads the object for its devices.

use crate::bpf::ObjectInfo;
use crate::btf::{declared_modaliases, Btf};
use crate::hex::{format_hex, hex_width, parse_hex, push_hex_min4, read_hex};
use crate::modalias::{format_spec, Bus, Group, Modalias};
use crate::paths::{file_name, file_name_of};
use crate::pattern::{captures, group_texts, regex_captures};
use crate::text::{chars_of, push_chars, push_str, string_of};
use vstd::prelude::*;

verus! {

/// A device that an object declares, each field as `0x` and at least four
/// hexadecimal digits.
#[derive(Debug, Clone)]
pub struct InspectionDevice {
    pub bus: String,
    pub group: String,
    pub vid: String,
    pub pid: String,
}

/// A program of an object.
#[derive(Debug, Clone)]
pub struct InspectionProgram {
    pub name: String,
    pub section: String,
}

/// A map of an object.
#[derive(Debug, Clone)]
pub struct InspectionMap {
    pub name: String,
}

/// What an object file holds.
#[derive(Debug, Clone)]
pub struct InspectionData {
    pub filename: String,
    pub devices: Vec<InspectionDevice>,
    pub programs: Vec<InspectionProgram>,
    pub maps: Vec<InspectionMap>,
}

/// A number as `0x` and its upper-case hexadecimal digits, at least four.
pub open spec fn hex_text(v: nat) -> Seq<char> {
    "0x"@ + format_hex(v, hex_width(v))
}

/// Writes a number as `0x` and its hexadecimal digits.
fn hex_string(v: u32) -> (r: String)
    ensures
        r@ == hex_text(v as nat),
{
    let mut out = chars_of("0x");
    push_hex_min4(&mut out, v);
    string_of(&out)
}

impl InspectionDevice {
    /// The four fields of a descriptor as texts.
    pub open spec fn shows(self, m: Modalias) -> bool {
        &&& self.bus@ == hex_text(m.bus.spec_code())
        &&& self.group@ == hex_text(m.group.spec_code())
        &&& self.vid@ == hex_text(m.vid as nat)
        &&& self.pid@ == hex_text(m.pid as nat)
    }

    /// The descriptor with its fields as hexadecimal texts.
    pub fn from_modalias(m: &Modalias) -> (r: InspectionDevice)
        ensures
            r.shows(*m),
    {
        InspectionDevice {
            bus: hex_string(m.bus.code() as u32),
            group: hex_string(m.group.code() as u32),
            vid: hex_string(m.vid),
            pid: hex_string(m.pid),
        }
    }
}

/// What the object file at `path` holds: the name of the file, the devices
/// that its type table declares, and its programs and maps.
pub fn inspect(path: &str, btf: &Btf, object: &ObjectInfo) -> (r: InspectionData)
    ensures
        r.filename@ == file_name(path@),
        r.devices@.len() == declared_modaliases(btf.types@).len(),
        forall|i: int|
            0 <= i < r.devices@.len() ==> (#[trigger] r.devices@[i]).shows(
                declared_modaliases(btf.types@)[i],
            ),
        r.programs@.len() == object.programs@.len(),
        forall|i: int|
            0 <= i < r.programs@.len() ==> (#[trigger] r.programs@[i]).name@
                == object.programs@[i].name@ && r.programs@[i].section@
                == object.programs@[i].section@,
        r.maps@.len() == object.maps@.len(),
        forall|i: int|
            0 <= i < r.maps@.len() ==> (#[trigger] r.maps@[i]).name@ == object.maps@[i].name@,
{
    let all = chars_of(path);
    let filename = string_of(&file_name_of(&all));
    let declared = btf.modaliases();
    let mut devices: Vec<InspectionDevice> = Vec::new();
    let mut i: usize = 0;
    while i < declared.len()
        invariant
            i <= declared.len(),
            devices.len() == i,
            forall|k: int| 0 <= k < i ==> (#[trigger] devices@[k]).shows(declared@[k]),
        decreases declared.len() - i,
    {
        devices.push(InspectionDevice::from_modalias(&declared[i]));
        i = i + 1;
    }
    let mut programs: Vec<InspectionProgram> = Vec::new();
    let mut p: usize = 0;
    while p < object.programs.len()
        invariant
            p <= object.programs.len(),
            programs.len() == p,
            forall|k: int|
                0 <= k < p ==> (#[trigger] programs@[k]).name@ == object.programs@[k].name@
                    && programs@[k].section@ == object.programs@[k].section@,
        decreases object.programs.len() - p,
    {
        programs.push(
            InspectionProgram {
                name: object.programs[p].name.clone(),
                section: object.programs[p].section.clone(),
            },
        );
        p = p + 1;
    }
    let mut maps: Vec<InspectionMap> = Vec::new();
    let mut m: usize = 0;
    while m < object.maps.len()
        invariant
            m <= object.maps.len(),
            maps.len() == m,
            forall|k: int| 0 <= k < m ==> (#[trigger] maps@[k]).name@ == object.maps@[k].name@,
        decreases object.maps.len() - m,
    {
        maps.push(InspectionMap { name: object.maps[m].name.clone() });
        m = m + 1;
    }
    InspectionData { filename, devices, programs, maps }
}

/// One line of a udev rule: on the action, for devices that match the
/// descriptor, run the program with the action, the device and the object file.
pub open spec fn rule_line(
    action: Seq<char>,
    m: Modalias,
    bindir: Seq<char>,
    object: Seq<char>,
) -> Seq<char> {
    "ACTION==\""@ + action + "\",ENV{MODALIAS}==\"hid:"@ + format_spec(m)
        + "\", RUN{program}+=\""@ + bindir + "/udev-hid-bpf "@ + action + " $sys$devpath "@
        + object + "\"\n"@
}

/// The lines of a udev rule for one device: a comment with the name of the
/// object file, a line that loads the object when the device is added, and one
/// for when it is removed.
pub open spec fn rule_block(m: Modalias, bindir: Seq<char>, target: Seq<char>) -> Seq<char> {
    "# "@ + file_name(target) + " \n"@ + rule_line("add"@, m, bindir, target) + rule_line(
        "remove"@,
        m,
        bindir,
        Seq::empty(),
    )
}

/// The lines for the devices, in order.
pub open spec fn rule_blocks(devices: Seq<Modalias>, bindir: Seq<char>, target: Seq<char>) -> Seq<
    char,
>
    decreases devices.len(),
{
    if devices.len() == 0 {
        Seq::empty()
    } else {
        rule_blocks(devices.drop_last(), bindir, target) + rule_block(
            devices.last(),
            bindir,
            target,
        )
    }
}

/// The udev rule that loads the object file at `target` for the devices.
pub open spec fn udev_rule(devices: Seq<Modalias>, bindir: Seq<char>, target: Seq<char>) -> Seq<
    char,
> {
    "# This udev rule was generated by udev-hid-bpf install\nACTION!=\"add|remove\", GOTO=\"hid_bpf_end\"\nSUBSYSTEM!=\"hid\", GOTO=\"hid_bpf_end\"\n\n"@
        + rule_blocks(devices, bindir, target) + "\nLABEL=\"hid_bpf_end\"\n"@
}

/// Appends one line of a rule.
fn push_rule_line(out: &mut Vec<char>, action: &str, m: &Modalias, bindir: &str, object: &str)
    ensures
        final(out)@ == old(out)@ + rule_line(action@, *m, bindir@, object@),
{
    let text = m.to_text();
    push_str(out, "ACTION==\"");
    push_str(out, action);
    push_str(out, "\",ENV{MODALIAS}==\"hid:");
    push_str(out, text.as_str());
    push_str(out, "\", RUN{program}+=\"");
    push_str(out, bindir);
    push_str(out, "/udev-hid-bpf ");
    push_str(out, action);
    push_str(out, " $sys$devpath ");
    push_str(out, object);
    push_str(out, "\"\n");
    proof {
        assert(out@ =~= old(out)@ + rule_line(action@, *m, bindir@, object@));
    }
}

/// Writes the udev rule that runs the program in `bindir` for each of the
/// devices: with the object file at `target` when the device is added, without
/// one when it is removed.
pub fn write_udev_rule(bindir: &str, target: &str, devices: &[Modalias]) -> (r: String)
    ensures
        r@ == udev_rule(devices@, bindir@, target@),
{
    let mut out = chars_of(
        "# This udev rule was generated by udev-hid-bpf install\nACTION!=\"add|remove\", GOTO=\"hid_bpf_end\"\nSUBSYSTEM!=\"hid\", GOTO=\"hid_bpf_end\"\n\n",
    );
    let ghost header = out@;
    let name = file_name_of(&chars_of(target));
    let mut i: usize = 0;
    proof {
        assert(devices@.take(0) =~= Seq::<Modalias>::empty());
        assert(out@ =~= header + rule_blocks(devices@.take(0), bindir@, target@));
    }
    while i < devices.len()
        invariant
            i <= devices.len(),
            name@ == file_name(target@),
            out@ == header + rule_blocks(devices@.take(i as int), bindir@, target@),
        decreases devices.len() - i,
    {
        let ghost before = out@;
        push_str(&mut out, "# ");
        push_chars(&mut out, &name);
        push_str(&mut out, " \n");
        push_rule_line(&mut out, "add", &devices[i], bindir, target);
        push_rule_line(&mut out, "remove", &devices[i], bindir, "");
        proof {
            reveal_strlit("");
            assert(""@ =~= Seq::<char>::empty());
            let upto = devices@.take(i + 1);
            assert(upto.drop_last() =~= devices@.take(i as int));
            assert(upto.last() == devices@[i as int]);
            assert(out@ =~= before + rule_block(devices@[i as int], bindir@, target@));
            assert(out@ =~= header + rule_blocks(upto, bindir@, target@));
        }
        i = i + 1;
    }
    push_str(&mut out, "\nLABEL=\"hid_bpf_end\"\n");
    proof {
        assert(devices@.take(devices@.len() as int) =~= devices@);
        assert(out@ =~= udev_rule(devices@, bindir@, target@));
    }
    string_of(&out)
}

/// The pattern of the descriptor that the kernel gives for a device with a
/// vendor and a product of four digits; its groups are the bus, the group,
/// the vendor and the product.
pub open spec fn entry_pattern() -> Seq<char> {
    "hid:b([A-Z0-9]{4})g([A-Z0-9]{4})v0000([A-Z0-9]{4})p0000([A-Z0-9]{4})"@
}

/// Four digits or upper-case hexadecimal letters: a code as the kernel writes
/// it.
pub open spec fn is_code(code: Seq<char>) -> bool {
    code.len() == 4 && forall|i: int|
        0 <= i < 4 ==> ('0' <= #[trigger] code[i] && code[i] <= '9') || ('A' <= code[i] && code[i]
            <= 'F')
}

/// The name that the kernel gives the bus with the code, if it is the code of
/// a bus.
pub open spec fn bus_name(code: Seq<char>) -> Option<Seq<char>> {
    if is_code(code) {
        match parse_hex(code) {
            Some(v) => match Bus::of_code(v) {
                Some(bus) => bus.spec_kernel_name(),
                None => None,
            },
            None => None,
        }
    } else {
        None
    }
}

/// The name that the kernel gives the group with the code, if it is the code
/// of a group.
pub open spec fn group_name(code: Seq<char>) -> Option<Seq<char>> {
    if is_code(code) {
        match parse_hex(code) {
            Some(v) => match Group::of_code(v) {
                Some(group) => group.spec_kernel_name(),
                None => None,
            },
            None => None,
        }
    } else {
        None
    }
}

/// How a bus is shown: by the name that the kernel gives it, and by the text
/// itself where it names no bus.
pub open spec fn bus_label(code: Seq<char>) -> Seq<char> {
    match bus_name(code) {
        Some(name) => name,
        None => code,
    }
}

/// How a group is shown: by the name that the kernel gives it, and by the
/// text itself where it names no group.
pub open spec fn group_label(code: Seq<char>) -> Seq<char> {
    match group_name(code) {
        Some(name) => name,
        None => code,
    }
}

/// The source line that declares a device, from what the pattern captured:
/// the whole match and the four groups. Anything else gives no line.
pub open spec fn entry_of(groups: Option<Seq<Option<Seq<char>>>>) -> Option<Seq<char>> {
    match groups {
        Some(g) => if g.len() == 5 && g[1] is Some && g[2] is Some && g[3] is Some && g[4] is Some {
            Some(
                "HID_DEVICE("@ + bus_label(g[1].unwrap()) + ", "@ + group_label(g[2].unwrap())
                    + ", 0x"@ + g[3].unwrap() + ", 0x"@ + g[4].unwrap() + ")"@,
            )
        } else {
            None
        },
        None => None,
    }
}

/// Tells whether the characters are a code as the kernel writes it.
fn is_code_text(code: &Vec<char>) -> (r: bool)
    ensures
        r == is_code(code@),
{
    if code.len() != 4 {
        return false;
    }
    let mut k: usize = 0;
    while k < 4
        invariant
            k <= 4,
            code.len() == 4,
            forall|j: int|
                0 <= j < k ==> ('0' <= #[trigger] code@[j] && code@[j] <= '9') || ('A' <= code@[j]
                    && code@[j] <= 'F'),
        decreases 4 - k,
    {
        let c = code[k];
        if !(('0' <= c && c <= '9') || ('A' <= c && c <= 'F')) {
            return false;
        }
        k = k + 1;
    }
    true
}

/// Appends the name of the bus that the text names, or the text itself.
fn push_bus_label(out: &mut Vec<char>, code: &str)
    ensures
        final(out)@ == old(out)@ + bus_label(code@),
{
    let chars = chars_of(code);
    let mut name: Option<&'static str> = None;
    if is_code_text(&chars) {
        proof {
            assert(chars@.subrange(0, 4) =~= chars@);
        }
        name = match read_hex(&chars, 0, 4) {
            Some(v) => match Bus::try_from(v as usize) {
                Ok(bus) => bus.kernel_name(),
                Err(_) => None,
            },
            None => None,
        };
    }
    match name {
        Some(name) => push_str(out, name),
        None => push_chars(out, &chars),
    }
}

/// Appends the name of the group that the text names, or the text itself.
fn push_group_label(out: &mut Vec<char>, code: &str)
    ensures
        final(out)@ == old(out)@ + group_label(code@),
{
    let chars = chars_of(code);
    let mut name: Option<&'static str> = None;
    if is_code_text(&chars) {
        proof {
            assert(chars@.subrange(0, 4) =~= chars@);
        }
        name = match read_hex(&chars, 0, 4) {
            Some(v) => match Group::try_from(v as usize) {
                Ok(group) => group.kernel_name(),
                Err(_) => None,
            },
            None => None,
        };
    }
    match name {
        Some(name) => push_str(out, name),
        None => push_chars(out, &chars),
    }
}

/// The source line that declares a device, from what the pattern of the
/// descriptor captured: `HID_DEVICE(BUS_USB, HID_GROUP_GENERIC, 0x045E, 0x07A5)`.
/// A bus or a group is shown by the name of the kernel where it has one.
pub fn device_entry(groups: &Option<Vec<Option<String>>>) -> (r: Option<String>)
    ensures
        match r {
            Some(line) => entry_of(group_texts(*groups)) == Some(line@),
            None => entry_of(group_texts(*groups)) is None,
        },
{
    match groups {
        Some(all) => {
            if all.len() != 5 {
                return None;
            }
            match (&all[1], &all[2], &all[3], &all[4]) {
                (Some(bus), Some(group), Some(vid), Some(pid)) => {
                    let mut out = chars_of("HID_DEVICE(");
                    push_bus_label(&mut out, bus.as_str());
                    push_str(&mut out, ", ");
                    push_group_label(&mut out, group.as_str());
                    push_str(&mut out, ", 0x");
                    push_str(&mut out, vid.as_str());
                    push_str(&mut out, ", 0x");
                    push_str(&mut out, pid.as_str());
                    push_str(&mut out, ")");
                    Some(string_of(&out))
                },
                _ => None,
            }
        },
        None => None,
    }
}

/// The source line that declares a device, from the descriptor that the
/// kernel gives for it. The first descriptor in the text counts; a text
/// without one gives `None`.
pub fn hid_device_entry(modalias: &str) -> (r: Option<String>)
    ensures
        match r {
            Some(line) => entry_of(regex_captures(entry_pattern(), modalias@)) == Some(line@),
            None => entry_of(regex_captures(entry_pattern(), modalias@)) is None,
        },
{
    let groups = captures(
        "hid:b([A-Z0-9]{4})g([A-Z0-9]{4})v0000([A-Z0-9]{4})p0000([A-Z0-9]{4})",
        modalias,
    );
    device_entry(&groups)
}

} // verus!
