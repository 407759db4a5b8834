//! What the command line hands over: device paths and object files in one
//! list, properties as `NAME=VALUE`, search directories in one text.

use crate::hidudev::{property_spec, HidUdevProperty, InvalidProperty};
use crate::paths::{
    ends_with, file_name, file_name_of, is_object_name, join, join_path, object_suffix,
};
use crate::pattern::{captures, contains_sysname, regex_captures, sysname_pattern};
use crate::text::{
    chars_of, contains_text, has_text, lemma_position_of, position_of, push_chars, push_str,
    split, split_chars, string_of, views,
};
use vstd::prelude::*;

verus! {

/// Why a list of paths cannot be split into devices and object files.
#[derive(Debug, Clone, Copy, PartialEq, Eq, Structural)]
pub enum SplitError {
    /// The list is empty.
    NoPaths,
    /// A device or an object file is the empty text or a second `-`.
    InvalidPath,
    /// Nothing stands before the `-`.
    MissingDevice,
}

/// The element that parts devices from object files.
pub open spec fn divider() -> Seq<char> {
    seq!['-']
}

/// A path that cannot name a device or an object file.
pub open spec fn is_bad_path(p: Seq<char>) -> bool {
    p.len() == 0 || p == divider()
}

/// The devices and the object files of a list, before they are checked. A
/// list of one or two holds a device and perhaps its object file; a longer one
/// is split at its first `-`.
pub open spec fn split_at_divider(paths: Seq<Seq<char>>) -> (Seq<Seq<char>>, Seq<Seq<char>>) {
    if paths.len() <= 2 {
        (paths.take(1), paths.skip(1))
    } else {
        let at = position_of(paths, divider());
        if at < paths.len() {
            (paths.take(at), paths.skip(at + 1))
        } else {
            (paths, Seq::empty())
        }
    }
}

/// What a list of paths means.
pub open spec fn split_spec(paths: Seq<Seq<char>>) -> Result<
    (Seq<Seq<char>>, Seq<Seq<char>>),
    SplitError,
> {
    if paths.len() == 0 {
        Err(SplitError::NoPaths)
    } else {
        let (devices, objects) = split_at_divider(paths);
        if exists|i: int| 0 <= i < devices.len() && is_bad_path(#[trigger] devices[i]) {
            Err(SplitError::InvalidPath)
        } else if exists|i: int| 0 <= i < objects.len() && is_bad_path(#[trigger] objects[i]) {
            Err(SplitError::InvalidPath)
        } else if devices.len() == 0 {
            Err(SplitError::MissingDevice)
        } else {
            Ok((devices, objects))
        }
    }
}

/// Tells whether a path is `-`.
fn is_divider(p: &String) -> (r: bool)
    ensures
        r == (p@ == divider()),
{
    let s = p.as_str();
    let r = s.unicode_len() == 1 && s.get_char(0) == '-';
    proof {
        if r {
            assert(p@ =~= divider());
        }
    }
    r
}

/// Tells whether a path can name neither a device nor an object file.
fn is_bad(p: &String) -> (r: bool)
    ensures
        r == is_bad_path(p@),
{
    p.as_str().unicode_len() == 0 || is_divider(p)
}

/// Copies the paths from `from` up to `to`.
fn copy_paths(paths: &Vec<String>, from: usize, to: usize) -> (r: Vec<String>)
    requires
        from <= to <= paths.len(),
    ensures
        r@ == paths@.subrange(from as int, to as int),
{
    let mut out: Vec<String> = Vec::new();
    let mut i: usize = from;
    while i < to
        invariant
            from <= i <= to <= paths.len(),
            out@ == paths@.subrange(from as int, i as int),
        decreases to - i,
    {
        out.push(paths[i].clone());
        i = i + 1;
        proof {
            assert(out@ =~= paths@.subrange(from as int, i as int));
        }
    }
    out
}

/// Tells whether one of the paths is bad.
fn any_bad(paths: &Vec<String>) -> (r: bool)
    ensures
        r == exists|i: int| 0 <= i < paths.len() && is_bad_path(#[trigger] views(paths@)[i]),
{
    let mut i: usize = 0;
    while i < paths.len()
        invariant
            i <= paths.len(),
            forall|k: int| 0 <= k < i ==> !is_bad_path(#[trigger] views(paths@)[k]),
        decreases paths.len() - i,
    {
        if is_bad(&paths[i]) {
            assert(is_bad_path(views(paths@)[i as int]));
            return true;
        }
        i = i + 1;
    }
    false
}

/// Splits a list of paths at its first `-`: `[a, b, c, -, d, e]` becomes
/// `[a, b, c]` and `[d, e]`. A list of two is a device and its object file.
pub fn split_paths(paths: Vec<String>) -> (r: Result<(Vec<String>, Vec<String>), SplitError>)
    ensures
        match r {
            Ok((devices, objects)) => split_spec(views(paths@)) == Ok::<
                (Seq<Seq<char>>, Seq<Seq<char>>),
                SplitError,
            >((views(devices@), views(objects@))),
            Err(e) => split_spec(views(paths@)) == Err::<
                (Seq<Seq<char>>, Seq<Seq<char>>),
                SplitError,
            >(e),
        },
{
    let n = paths.len();
    if n == 0 {
        return Err(SplitError::NoPaths);
    }
    let ghost all = views(paths@);
    let mut at: usize = 1;
    let mut behind: usize = 1;
    if n > 2 {
        let mut i: usize = 0;
        while i < n && !is_divider(&paths[i])
            invariant
                i <= n == paths.len(),
                all == views(paths@),
                forall|k: int| 0 <= k < i ==> all[k] != divider(),
            decreases n - i,
        {
            i = i + 1;
        }
        proof {
            lemma_position_of(all, divider(), i as int);
        }
        at = i;
        behind = if i < n {
            i + 1
        } else {
            n
        };
    }
    let devices = copy_paths(&paths, 0, at);
    let objects = copy_paths(&paths, behind, n);
    proof {
        assert(views(devices@) =~= split_at_divider(all).0);
        assert(views(objects@) =~= split_at_divider(all).1);
    }
    if any_bad(&devices) || any_bad(&objects) {
        return Err(SplitError::InvalidPath);
    }
    if devices.len() == 0 {
        return Err(SplitError::MissingDevice);
    }
    Ok((devices, objects))
}

/// Reads a property given as `NAME=VALUE`.
pub fn tuple_parse(s: &str) -> (r: Result<HidUdevProperty, InvalidProperty>)
    ensures
        match r {
            Ok(p) => property_spec(s@) == Some((p.name@, p.value@)),
            Err(_) => property_spec(s@) is None,
        },
{
    HidUdevProperty::parse(s)
}

/// The directories in which object files are looked for by default: the
/// parts of the text between its colons.
pub fn default_bpf_dirs(dirs: &str) -> (r: Vec<String>)
    ensures
        views(r@) == split(dirs@, ':'),
{
    let chars = chars_of(dirs);
    split_chars(&chars, ':')
}

/// The directories in which object files are looked for: the directory that
/// was asked for, if any, before the default ones.
pub fn target_bpf_dirs(bpfdir: Option<String>, defaults: &str) -> (r: Vec<String>)
    ensures
        views(r@) == match bpfdir {
            Some(dir) => seq![dir@] + split(defaults@, ':'),
            None => split(defaults@, ':'),
        },
{
    let rest = default_bpf_dirs(defaults);
    match bpfdir {
        Some(dir) => {
            let mut out: Vec<String> = Vec::new();
            let ghost first = dir@;
            out.push(dir);
            let mut i: usize = 0;
            proof {
                assert(views(out@) =~= seq![first] + views(rest@).take(0));
            }
            while i < rest.len()
                invariant
                    i <= rest.len(),
                    views(out@) == seq![first] + views(rest@).take(i as int),
                decreases rest.len() - i,
            {
                let ghost before = views(out@);
                out.push(rest[i].clone());
                i = i + 1;
                proof {
                    assert(views(out@) =~= before.push(views(rest@)[i - 1]));
                    assert(views(out@) =~= seq![first] + views(rest@).take(i as int));
                }
            }
            proof {
                assert(views(rest@).take(rest.len() as int) =~= views(rest@));
            }
            out
        },
        None => rest,
    }
}

/// A path that does not end in the name of a HID device.
#[derive(Debug, Clone, Copy, PartialEq, Eq, Structural)]
pub struct InvalidSyspath;

/// The name of a device, given the last component of its path and whether the
/// pattern of device names was found in it.
pub fn sysname_if_matched(name: String, matched: bool) -> (r: Result<String, InvalidSyspath>)
    ensures
        r == (if matched {
            Ok::<String, InvalidSyspath>(name)
        } else {
            Err::<String, InvalidSyspath>(InvalidSyspath)
        }),
{
    if matched {
        Ok(name)
    } else {
        Err(InvalidSyspath)
    }
}

/// The name of the device at a path in sysfs, for a device that is gone: the
/// last component of the path, where it holds `XXXX:XXXX:XXXX.XXXX`.
pub fn sysname_from_syspath(syspath: &str) -> (r: Result<String, InvalidSyspath>)
    ensures
        match r {
            Ok(name) => name@ == file_name(syspath@) && contains_sysname(name@),
            Err(_) => !contains_sysname(file_name(syspath@)),
        },
        regex_captures(sysname_pattern(), file_name(syspath@)) is Some == (r is Ok),
{
    let path = chars_of(syspath);
    let name = string_of(&file_name_of(&path));
    let found = captures("[A-Z0-9]{4}:[A-Z0-9]{4}:[A-Z0-9]{4}\\.[A-Z0-9]{4}", name.as_str());
    sysname_if_matched(name, found.is_some())
}

/// Where an object file and its udev rule are installed, and the program that
/// the rule runs.
#[derive(Debug, Clone)]
pub struct InstallPlan {
    /// The directory of the program.
    pub bindir: String,
    /// The program that the udev rule runs.
    pub exe: String,
    /// Where the object file goes.
    pub target: String,
    /// Where the udev rule goes.
    pub udev_rule: String,
}

/// Why an object file cannot be installed.
#[derive(Debug, Clone, Copy, PartialEq, Eq, Structural)]
pub enum InstallError {
    /// The path does not end in `.bpf.o`.
    NotAnObject,
    /// The object declares no device, so no rule could ever load it.
    NoDevices,
}

/// The directory of the program: `bin` below the prefix, or the default.
pub open spec fn bindir_of(prefix: Option<Seq<char>>, default_bindir: Seq<char>) -> Seq<char> {
    match prefix {
        Some(p) => join(p, "bin"@),
        None => default_bindir,
    }
}

/// The path of the udev rule for an object file with the given name: the name
/// without `.bpf.o` between `99-hid-bpf-` and `.rules`.
pub open spec fn udev_rule_path(filename: Seq<char>) -> Seq<char> {
    "/etc/udev/rules.d/99-hid-bpf-"@ + without_suffix(filename) + ".rules"@
}

/// The name without `.bpf.o` at its end.
pub open spec fn without_suffix(filename: Seq<char>) -> Seq<char> {
    if ends_with(filename, object_suffix()) {
        filename.take(filename.len() - 6)
    } else {
        filename
    }
}

/// Decides where the object file at `path` is installed. `devices` is the
/// number of devices that the object declares.
pub fn install_plan(path: &str, prefix: Option<&str>, default_bindir: &str, devices: usize) -> (r:
    Result<InstallPlan, InstallError>)
    ensures
        match r {
            Ok(plan) => {
                let bindir = bindir_of(
                    match prefix {
                        Some(p) => Some(p@),
                        None => None,
                    },
                    default_bindir@,
                );
                &&& ends_with(path@, object_suffix())
                &&& devices > 0
                &&& plan.bindir@ == bindir
                &&& plan.exe@ == join(bindir, "udev-hid-bpf"@)
                &&& plan.target@ == join("/etc/udev-hid-bpf/"@, file_name(path@))
                &&& plan.udev_rule@ == udev_rule_path(file_name(path@))
            },
            Err(InstallError::NotAnObject) => !ends_with(path@, object_suffix()),
            Err(InstallError::NoDevices) => ends_with(path@, object_suffix()) && devices == 0,
        },
{
    let all = chars_of(path);
    if !is_object_name(&all) {
        return Err(InstallError::NotAnObject);
    }
    if devices == 0 {
        return Err(InstallError::NoDevices);
    }
    let bindir = match prefix {
        Some(p) => join_path(&chars_of(p), &chars_of("bin")),
        None => chars_of(default_bindir),
    };
    let exe = join_path(&bindir, &chars_of("udev-hid-bpf"));
    let name = file_name_of(&all);
    let target = join_path(&chars_of("/etc/udev-hid-bpf/"), &name);
    let mut rule = chars_of("/etc/udev/rules.d/99-hid-bpf-");
    let mut stem = file_name_of(&all);
    if is_object_name(&stem) {
        let keep = stem.len() - 6;
        stem.truncate(keep);
    }
    proof {
        assert(stem@ =~= without_suffix(name@));
    }
    push_chars(&mut rule, &stem);
    push_str(&mut rule, ".rules");
    Ok(
        InstallPlan {
            bindir: string_of(&bindir),
            exe: string_of(&exe),
            target: string_of(&target),
            udev_rule: string_of(&rule),
        },
    )
}

/// A message of the loader that is of no concern: that it passes over the
/// section `.hid_bpf_config`, which it does not know, or over a relocation
/// section.
pub open spec fn is_expected_notice(msg: Seq<char>) -> bool {
    (contains_text(msg, "skipping unrecognized data section"@) && contains_text(
        msg,
        ".hid_bpf_config"@,
    )) || contains_text(msg, "skipping relo section"@)
}

/// Tells whether a message of the loader is of no concern, so that it is
/// shown among the debugging messages only.
pub fn expected_notice(msg: &str) -> (r: bool)
    ensures
        r == is_expected_notice(msg@),
{
    let chars = chars_of(msg);
    (has_text(&chars, "skipping unrecognized data section") && has_text(
        &chars,
        ".hid_bpf_config",
    )) || has_text(&chars, "skipping relo section")
}

/// Tells whether a path is that of an object file: whether it ends in
/// `.bpf.o`.
pub fn is_object_file(path: &str) -> (r: bool)
    ensures
        r == ends_with(path@, object_suffix()),
{
    let chars = chars_of(path);
    is_object_name(&chars)
}

} // verus!
