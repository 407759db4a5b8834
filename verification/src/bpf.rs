//! Attaching one object to one device: the probe, the programs or struct-ops
//! maps to attach, the maps to pin, and where everything is pinned.
//!
//! The kernel is not called from here. `HidBPF` says which call is due, takes
//! what came of it, and moves on; whoever drives it makes the calls.

use crate::hidudev::HidUdev;
use crate::order::same_text;
use crate::paths::{after_dash, after_dash_of, ends_with, file_name, file_name_of, is_object_name, object_suffix};
use crate::text::{chars_of, string_of};
use vstd::prelude::*;

verus! {

/// What the probe of an object is handed: the number of the device, the
/// length of its report descriptor, the descriptor itself in a buffer of 4096
/// bytes, and a place for the answer.
#[allow(non_camel_case_types)]
#[derive(Debug, Clone, Copy)]
pub struct hid_bpf_probe_args {
    pub hid: u32,
    pub rdesc_size: u32,
    pub rdesc: [u8; 4096],
    pub retval: i32,
}

/// What the attach program is handed: the program to attach, the number of the
/// device, and a place for the answer.
#[derive(Debug, Clone, Copy)]
pub struct AttachProgArgs {
    pub prog_fd: i32,
    pub hid: u32,
    pub retval: i32,
}

/// Why an object was not attached to a device.
#[derive(Debug, Clone, Copy, PartialEq, Eq, Structural)]
pub enum AttachError {
    /// The object file could not be opened or loaded.
    InvalidObject,
    /// The probe of the object turned the device down.
    Declined,
    /// The probe could not be run, or reported an error.
    ProbeSyscallError,
    /// None of the programs of the object could be attached.
    NothingAttached,
    /// A map could not be pinned; what had been pinned is removed.
    PinFailed,
}

/// How far the attaching of an object has come.
#[derive(Debug, Clone, Copy, PartialEq, Eq, Structural)]
pub enum Stage {
    Opened,
    Probed,
    Attached,
    Pinned,
    Failed(AttachError),
}

/// The two ways in which an object asks to be attached.
#[derive(Debug, Clone, Copy, PartialEq, Eq, Structural)]
pub enum Convention {
    /// Each tracing program is attached by a run of the attach program.
    Tracing,
    /// The struct-ops maps are bound to the device and attached themselves.
    StructOps,
}

/// The type of a program, as far as it matters here.
#[derive(Debug, Clone, Copy, PartialEq, Eq, Structural)]
pub enum ProgramKind {
    Tracing,
    StructOps,
    Syscall,
    Other,
}

/// A program of an object: its name, the section of the object file that it
/// stands in, and its type.
#[derive(Debug, Clone)]
pub struct ProgramInfo {
    pub name: String,
    pub section: String,
    pub kind: ProgramKind,
}

/// A map of an object.
#[derive(Debug, Clone)]
pub struct MapInfo {
    pub name: String,
    pub struct_ops: bool,
}

/// What opening an object file showed: its programs and its maps.
#[derive(Debug, Clone)]
pub struct ObjectInfo {
    pub programs: Vec<ProgramInfo>,
    pub maps: Vec<MapInfo>,
}

/// The text with `_` for each `:` and each `.`.
pub open spec fn sanitized(s: Seq<char>) -> Seq<char> {
    s.map_values(
        |c: char|
            if c == ':' || c == '.' {
                '_'
            } else {
                c
            },
    )
}

/// The directory below which everything of one object on one device is pinned.
pub open spec fn bpffs_path(sysname: Seq<char>, object: Seq<char>) -> Seq<char> {
    "/sys/fs/bpf/hid/"@ + sanitized(sysname) + seq!['/'] + sanitized(object)
}

/// The name under which an object file is pinned: the name at the end of its
/// path without the priority before the first `-` and without `.bpf.o`.
pub open spec fn object_stem(path: Seq<char>) -> Seq<char> {
    let name = after_dash(file_name(path));
    if ends_with(name, object_suffix()) {
        name.take(name.len() - 6)
    } else {
        name
    }
}

/// The path at which a program or a map is pinned.
pub open spec fn pin_path(dir: Seq<char>, name: Seq<char>) -> Seq<char> {
    dir + seq!['/'] + name
}

/// Appends the text to `out` with `_` for each `:` and each `.`.
fn push_sanitized(out: &mut Vec<char>, s: &Vec<char>)
    ensures
        final(out)@ == old(out)@ + sanitized(s@),
{
    let ghost head = out@;
    let mut i: usize = 0;
    while i < s.len()
        invariant
            i <= s.len(),
            out@ == head + sanitized(s@).take(i as int),
        decreases s.len() - i,
    {
        let c = s[i];
        if c == ':' || c == '.' {
            out.push('_');
        } else {
            out.push(c);
        }
        i = i + 1;
        proof {
            assert(out@ =~= head + sanitized(s@).take(i as int));
        }
    }
    proof {
        assert(sanitized(s@).take(s.len() as int) =~= sanitized(s@));
    }
}

/// Appends the text to `out`.
fn push_all(out: &mut Vec<char>, s: &Vec<char>)
    ensures
        final(out)@ == old(out)@ + s@,
{
    let ghost head = out@;
    let mut i: usize = 0;
    while i < s.len()
        invariant
            i <= s.len(),
            out@ == head + s@.take(i as int),
        decreases s.len() - i,
    {
        out.push(s[i]);
        i = i + 1;
        proof {
            assert(out@ =~= head + s@.take(i as int));
        }
    }
    proof {
        assert(s@.take(s.len() as int) =~= s@);
    }
}

/// The directory below which everything of the object on the device is
/// pinned: `/sys/fs/bpf/hid/<sysname>/<object>`, with `_` for each `:` and
/// each `.` of the two names.
pub fn get_bpffs_path(sysname: &str, object: &str) -> (r: String)
    ensures
        r@ == bpffs_path(sysname@, object@),
{
    let mut out = chars_of("/sys/fs/bpf/hid/");
    let device = chars_of(sysname);
    let name = chars_of(object);
    push_sanitized(&mut out, &device);
    out.push('/');
    push_sanitized(&mut out, &name);
    proof {
        assert(out@ =~= bpffs_path(sysname@, object@));
    }
    string_of(&out)
}

/// The directory to remove when a device goes away: the one that holds all
/// that is pinned for the device.
pub fn remove_bpf_objects(sysname: &str) -> (r: String)
    ensures
        r@ == bpffs_path(sysname@, Seq::empty()),
{
    let r = get_bpffs_path(sysname, "");
    proof {
        reveal_strlit("");
        assert(""@ =~= Seq::<char>::empty());
    }
    r
}

impl HidUdev {
    /// The directory to remove when the device goes away.
    pub fn remove_bpf_objects(&self) -> (r: String)
        ensures
            r@ == bpffs_path(self@.sysname, Seq::empty()),
    {
        let name = self.sysname();
        remove_bpf_objects(name.as_str())
    }
}

/// The name under which an object file is pinned.
pub fn object_stem_of(path: &str) -> (r: String)
    ensures
        r@ == object_stem(path@),
{
    let all = chars_of(path);
    let name = file_name_of(&all);
    let mut tail = after_dash_of(&name);
    if is_object_name(&tail) {
        let ghost whole = tail@;
        let keep = tail.len() - 6;
        tail.truncate(keep);
        proof {
            assert(tail@ =~= whole.take(whole.len() - 6));
        }
    }
    string_of(&tail)
}

/// What a run of a program through the test-run call came to: the call itself
/// succeeded with status zero, and failed with the negated error number
/// otherwise.
pub open spec fn syscall_error(status: i32) -> Option<int> {
    if status == 0 {
        None
    } else {
        Some(-(status as int))
    }
}

/// Tells whether the test-run call itself succeeded; gives the error number
/// where it did not.
pub fn run_syscall_prog_generic(status: i32) -> (r: Result<(), i64>)
    ensures
        match r {
            Ok(_) => syscall_error(status) is None,
            Err(errno) => syscall_error(status) == Some(errno as int),
        },
{
    if status == 0 {
        Ok(())
    } else {
        Err(-(status as i64))
    }
}

/// The link that a run of the attach program gave: the answer of the program
/// where the call succeeded and the answer is not negative.
pub open spec fn attach_link(status: i32, retval: i32) -> Result<i32, int> {
    match syscall_error(status) {
        Some(errno) => Err(errno),
        None => if retval < 0 {
            Err(-(retval as int))
        } else {
            Ok(retval)
        },
    }
}

/// Reads what a run of the attach program came to: the link to pin, or the
/// error number.
pub fn run_syscall_prog_attach(status: i32, retval: i32) -> (r: Result<i32, i64>)
    ensures
        match r {
            Ok(link) => attach_link(status, retval) == Ok::<i32, int>(link),
            Err(errno) => attach_link(status, retval) == Err::<i32, int>(errno as int),
        },
{
    match run_syscall_prog_generic(status) {
        Err(errno) => Err(errno),
        Ok(_) => if retval < 0 {
            Err(-(retval as i64))
        } else {
            Ok(retval)
        },
    }
}

/// What a run of the probe came to. An answer of zero accepts the device, a
/// positive answer turns it down, and a negative answer or a failed call is an
/// error.
pub open spec fn probe_verdict(status: i32, retval: i32) -> Result<(), AttachError> {
    if status != 0 || retval < 0 {
        Err(AttachError::ProbeSyscallError)
    } else if retval > 0 {
        Err(AttachError::Declined)
    } else {
        Ok(())
    }
}

/// Reads what a run of the probe came to.
pub fn run_syscall_prog_probe(status: i32, retval: i32) -> (r: Result<(), AttachError>)
    ensures
        r == probe_verdict(status, retval),
{
    match run_syscall_prog_generic(status) {
        Err(_) => Err(AttachError::ProbeSyscallError),
        Ok(_) => if retval < 0 {
            Err(AttachError::ProbeSyscallError)
        } else if retval > 0 {
            Err(AttachError::Declined)
        } else {
            Ok(())
        },
    }
}

impl hid_bpf_probe_args {
    /// What the probe is handed for the device: the report descriptor in a
    /// buffer of 4096 bytes, cut off there and filled up with zeros, with its true
    /// length beside it and -1 for the answer.
    pub fn from(device: &HidUdev, report_descriptor: &[u8]) -> (r: Self)
        requires
            report_descriptor@.len() <= u32::MAX,
        ensures
            r.hid == device@.id,
            r.rdesc_size == report_descriptor@.len(),
            r.retval == -1,
            forall|i: int|
                0 <= i < 4096 ==> #[trigger] r.rdesc@[i] == (if i < report_descriptor@.len() {
                    report_descriptor@[i]
                } else {
                    0u8
                }),
    {
        let mut rdesc = [0u8;4096];
        let n = report_descriptor.len();
        let mut i: usize = 0;
        while i < n && i < 4096
            invariant
                i <= n == report_descriptor@.len(),
                i <= 4096,
                forall|k: int|
                    0 <= k < 4096 ==> #[trigger] rdesc@[k] == (if k < i {
                        report_descriptor@[k]
                    } else {
                        0u8
                    }),
            decreases 4096 - i,
        {
            rdesc[i] = report_descriptor[i];
            i = i + 1;
        }
        hid_bpf_probe_args { hid: device.id(), rdesc_size: n as u32, rdesc, retval: -1 }
    }
}

/// What the driver of an engine is asked to do next.
#[derive(Debug, Clone, PartialEq, Eq)]
pub enum Action {
    /// Load the object into the kernel. Before that, write the number `hid`
    /// of the device into the initial value of each of the listed struct-ops
    /// maps.
    Load { device_maps: Vec<usize>, hid: u32 },
    /// Run the program `probe` of the object on the device.
    Probe,
    /// Run the attach program for the program at this place and the device
    /// with the number `hid`, and pin the link that it gives at `pin`.
    AttachProgram { program: usize, hid: u32, pin: String },
    /// Attach the struct-ops map at this place, and pin its link at `pin`.
    AttachMap { map: usize, pin: String },
    /// Pin the map at this place at `pin`.
    PinMap { map: usize, pin: String },
    /// Remove the directory with all that was pinned below it.
    Rollback { dir: String },
    /// Nothing is left to do.
    Done,
}

/// An action as the contracts see it.
pub enum ActionView {
    Load { device_maps: Seq<usize>, hid: u32 },
    Probe,
    AttachProgram { program: int, hid: u32, pin: Seq<char> },
    AttachMap { map: int, pin: Seq<char> },
    PinMap { map: int, pin: Seq<char> },
    Rollback { dir: Seq<char> },
    Done,
}

impl View for Action {
    type V = ActionView;

    open spec fn view(&self) -> ActionView {
        match *self {
            Action::Load { device_maps, hid } => ActionView::Load {
                device_maps: device_maps@,
                hid,
            },
            Action::Probe => ActionView::Probe,
            Action::AttachProgram { program, hid, pin } => ActionView::AttachProgram {
                program: program as int,
                hid,
                pin: pin@,
            },
            Action::AttachMap { map, pin } => ActionView::AttachMap { map: map as int, pin: pin@ },
            Action::PinMap { map, pin } => ActionView::PinMap { map: map as int, pin: pin@ },
            Action::Rollback { dir } => ActionView::Rollback { dir: dir@ },
            Action::Done => ActionView::Done,
        }
    }
}

/// What came of the action that was asked for.
#[derive(Debug, Clone, Copy, PartialEq, Eq, Structural)]
pub enum Event {
    /// The object was loaded, or could not be.
    Loaded { ok: bool },
    /// The probe ran: the status of the call and the answer of the probe.
    ProbeRan { status: i32, retval: i32 },
    /// The attach program ran: the status of the call, its answer, and
    /// whether the link that it gave was pinned.
    ProgramAttached { status: i32, retval: i32, pinned: bool },
    /// The struct-ops map was attached and its link pinned, or not.
    MapAttached { pinned: bool },
    /// The map was pinned, or could not be.
    MapPinned { ok: bool },
    /// The directory was removed.
    RolledBack,
}

/// An object as the contracts see it: the name, the type and the section of
/// each of its programs, and the names of its maps with whether each is a
/// struct-ops map.
pub struct ObjectView {
    pub programs: Seq<(Seq<char>, ProgramKind, Seq<char>)>,
    pub maps: Seq<(Seq<char>, bool)>,
}

impl ObjectView {
    /// The object has a program `probe`.
    pub open spec fn has_probe(self) -> bool {
        exists|i: int| 0 <= i < self.programs.len() && (#[trigger] self.programs[i]).0 == "probe"@
    }

    /// The way in which the object asks to be attached: as struct-ops where
    /// one of its programs is of that type, by tracing programs otherwise.
    pub open spec fn convention(self) -> Convention {
        if exists|i: int|
            0 <= i < self.programs.len() && (#[trigger] self.programs[i]).1
                == ProgramKind::StructOps {
            Convention::StructOps
        } else {
            Convention::Tracing
        }
    }

    /// How many items there are to look through for attaching.
    pub open spec fn attach_len(self) -> int {
        match self.convention() {
            Convention::Tracing => self.programs.len() as int,
            Convention::StructOps => self.maps.len() as int,
        }
    }

    /// The item at `i` is one to attach: a tracing program, or a struct-ops map.
    pub open spec fn attaches(self, i: int) -> bool {
        match self.convention() {
            Convention::Tracing => 0 <= i < self.programs.len() && self.programs[i].1
                == ProgramKind::Tracing,
            Convention::StructOps => 0 <= i < self.maps.len() && self.maps[i].1,
        }
    }

    /// The first item to attach from `from` on; `attach_len` where there is none.
    pub open spec fn next_attach(self, from: int) -> int
        decreases self.attach_len() - from,
    {
        if 0 <= from < self.attach_len() && !self.attaches(from) {
            self.next_attach(from + 1)
        } else {
            from
        }
    }

    /// The name under which the item at `i` is pinned once it is attached.
    pub open spec fn attach_name(self, i: int) -> Seq<char> {
        match self.convention() {
            Convention::Tracing => self.programs[i].0,
            Convention::StructOps => self.maps[i].0,
        }
    }

    /// The map at `i` is pinned beside the programs: it is no struct-ops map,
    /// and its name has no `.`, as the names of the maps that the compiler makes
    /// have.
    pub open spec fn pins(self, i: int) -> bool {
        0 <= i < self.maps.len() && !self.maps[i].1 && !self.maps[i].0.contains('.')
    }

    /// The first map to pin from `from` on; the number of maps where there is
    /// none.
    pub open spec fn next_pin(self, from: int) -> int
        decreases self.maps.len() - from,
    {
        if 0 <= from < self.maps.len() && !self.pins(from) {
            self.next_pin(from + 1)
        } else {
            from
        }
    }

    /// The struct-ops maps before `upto`, for which the device is to be set
    /// before the object is loaded; none under the tracing convention.
    pub open spec fn device_maps(self, upto: int) -> Seq<usize>
        decreases upto,
    {
        if upto <= 0 || self.convention() == Convention::Tracing {
            Seq::empty()
        } else if upto <= self.maps.len() && self.maps[upto - 1].1 {
            self.device_maps(upto - 1).push((upto - 1) as usize)
        } else {
            self.device_maps(upto - 1)
        }
    }
}

/// An engine as the contracts see it.
pub struct EngineView {
    pub stage: Stage,
    /// The object is in the kernel.
    pub loaded: bool,
    /// The removal of `dir` is due.
    pub rollback: bool,
    /// The place of the program or map that is dealt with now.
    pub cursor: int,
    /// How many programs or struct-ops maps were attached and pinned.
    pub attached: int,
    /// What was pinned, in order.
    pub pinned: Seq<Seq<char>>,
    pub hid: u32,
    pub dir: Seq<char>,
    pub object: ObjectView,
}

impl EngineView {
    /// Where the item under the cursor is pinned once it is attached.
    pub open spec fn attach_pin(self) -> Seq<char> {
        pin_path(self.dir, self.object.attach_name(self.cursor))
    }

    /// What the attaching came to: nothing yet while it goes on, the pinned
    /// paths once everything is pinned, and why it failed otherwise.
    pub open spec fn result(self) -> Option<Result<Seq<Seq<char>>, AttachError>> {
        match self.stage {
            Stage::Pinned => Some(Ok(self.pinned)),
            Stage::Failed(why) => Some(Err(why)),
            _ => None,
        }
    }

    /// What is due in this state.
    pub open spec fn action(self) -> ActionView {
        match self.stage {
            Stage::Opened => if !self.loaded {
                ActionView::Load {
                    device_maps: self.object.device_maps(self.object.maps.len() as int),
                    hid: self.hid,
                }
            } else {
                ActionView::Probe
            },
            Stage::Probed => match self.object.convention() {
                Convention::Tracing => ActionView::AttachProgram {
                    program: self.cursor,
                    hid: self.hid,
                    pin: self.attach_pin(),
                },
                Convention::StructOps => ActionView::AttachMap {
                    map: self.cursor,
                    pin: self.attach_pin(),
                },
            },
            Stage::Attached => ActionView::PinMap {
                map: self.cursor,
                pin: pin_path(self.dir, self.object.maps[self.cursor].0),
            },
            Stage::Pinned => ActionView::Done,
            Stage::Failed(_) => if self.rollback {
                ActionView::Rollback { dir: self.dir }
            } else {
                ActionView::Done
            },
        }
    }

    /// The engine gives up: nothing stays pinned.
    pub open spec fn fail(self, why: AttachError) -> EngineView {
        EngineView {
            stage: Stage::Failed(why),
            rollback: why == AttachError::PinFailed,
            attached: 0,
            pinned: Seq::empty(),
            ..self
        }
    }

    /// The attaching is over with at least one item attached: the maps follow.
    pub open spec fn enter_pin(self) -> EngineView {
        let first = self.object.next_pin(0);
        if first < self.object.maps.len() {
            EngineView { stage: Stage::Attached, cursor: first, ..self }
        } else {
            EngineView { stage: Stage::Pinned, cursor: first, ..self }
        }
    }

    /// The device was accepted: the attaching starts. An object with nothing
    /// to attach fails.
    pub open spec fn enter_attach(self) -> EngineView {
        let first = self.object.next_attach(0);
        if first < self.object.attach_len() {
            EngineView { stage: Stage::Probed, loaded: true, cursor: first, attached: 0, ..self }
        } else {
            EngineView { loaded: true, ..self }.fail(AttachError::NothingAttached)
        }
    }

    /// The item under the cursor was dealt with. Where it was attached and
    /// pinned it counts, where not the others still follow. After the last of
    /// them the maps follow, unless nothing was attached.
    pub open spec fn attach_done(self, ok: bool) -> EngineView {
        let counted = if ok {
            EngineView {
                attached: self.attached + 1,
                pinned: self.pinned.push(self.attach_pin()),
                ..self
            }
        } else {
            self
        };
        let next = self.object.next_attach(self.cursor + 1);
        if next < self.object.attach_len() {
            EngineView { cursor: next, ..counted }
        } else if counted.attached == 0 {
            counted.fail(AttachError::NothingAttached)
        } else {
            counted.enter_pin()
        }
    }

    /// The map under the cursor was pinned or not. One that could not be
    /// pinned ends it all: what was pinned is to be removed.
    pub open spec fn pin_done(self, ok: bool) -> EngineView {
        if ok {
            let next = self.object.next_pin(self.cursor + 1);
            let pinned = self.pinned.push(pin_path(self.dir, self.object.maps[self.cursor].0));
            if next < self.object.maps.len() {
                EngineView { cursor: next, pinned, ..self }
            } else {
                EngineView { stage: Stage::Pinned, cursor: next, pinned, ..self }
            }
        } else {
            self.fail(AttachError::PinFailed)
        }
    }

    /// The state after an event. An event that does not answer what was due
    /// changes nothing.
    pub open spec fn after(self, event: Event) -> EngineView {
        match (self.stage, event) {
            (Stage::Opened, Event::Loaded { ok }) => if self.loaded {
                self
            } else if !ok {
                self.fail(AttachError::InvalidObject)
            } else if self.object.has_probe() {
                EngineView { loaded: true, ..self }
            } else {
                self.enter_attach()
            },
            (Stage::Opened, Event::ProbeRan { status, retval }) => if !self.loaded {
                self
            } else {
                match probe_verdict(status, retval) {
                    Ok(_) => self.enter_attach(),
                    Err(why) => self.fail(why),
                }
            },
            (Stage::Probed, Event::ProgramAttached { status, retval, pinned }) => if self.object.convention()
                == Convention::Tracing {
                self.attach_done(attach_link(status, retval) is Ok && pinned)
            } else {
                self
            },
            (Stage::Probed, Event::MapAttached { pinned }) => if self.object.convention()
                == Convention::StructOps {
                self.attach_done(pinned)
            } else {
                self
            },
            (Stage::Attached, Event::MapPinned { ok }) => self.pin_done(ok),
            (Stage::Failed(_), Event::RolledBack) => EngineView { rollback: false, ..self },
            _ => self,
        }
    }

    /// What holds of every state that an engine reaches.
    pub open spec fn inv(self) -> bool {
        &&& 0 <= self.attached <= self.pinned.len()
        &&& 0 <= self.cursor
        &&& self.stage == Stage::Opened ==> self.pinned.len() == 0
        &&& self.stage == Stage::Probed ==> self.loaded && self.object.attaches(self.cursor)
            && self.attached == self.pinned.len()
        &&& self.stage == Stage::Attached ==> self.object.pins(self.cursor) && self.attached >= 1
        &&& self.stage == Stage::Pinned ==> self.attached >= 1
        &&& self.stage is Failed ==> self.pinned.len() == 0
        &&& self.rollback ==> self.stage == Stage::Failed(AttachError::PinFailed)
    }
}

/// What `next_attach` gives: a place at which an item to attach stands, or
/// the end, with none to attach before it.
pub proof fn lemma_next_attach(o: ObjectView, from: int)
    requires
        0 <= from,
    ensures
        from <= o.next_attach(from),
        from <= o.attach_len() ==> o.next_attach(from) <= o.attach_len(),
        o.next_attach(from) < o.attach_len() ==> o.attaches(o.next_attach(from)),
        forall|i: int| from <= i < o.next_attach(from) ==> !o.attaches(i),
    decreases o.attach_len() - from,
{
    if from < o.attach_len() && !o.attaches(from) {
        lemma_next_attach(o, from + 1);
    }
}

/// What `next_pin` gives: the place of a map to pin, or the end, with none to
/// pin before it.
pub proof fn lemma_next_pin(o: ObjectView, from: int)
    requires
        0 <= from,
    ensures
        from <= o.next_pin(from),
        from <= o.maps.len() ==> o.next_pin(from) <= o.maps.len(),
        o.next_pin(from) < o.maps.len() ==> o.pins(o.next_pin(from)),
        forall|i: int| from <= i < o.next_pin(from) ==> !o.pins(i),
    decreases o.maps.len() - from,
{
    if from < o.maps.len() && !o.pins(from) {
        lemma_next_pin(o, from + 1);
    }
}

/// Every event keeps the engine in a state of which `inv` holds. So an engine
/// that failed has nothing pinned, and one that is done has attached at least
/// one program or map.
pub proof fn lemma_engine_invariant(v: EngineView, event: Event)
    requires
        v.inv(),
    ensures
        v.after(event).inv(),
{
    lemma_next_attach(v.object, 0);
    lemma_next_attach(v.object, v.cursor + 1);
    lemma_next_pin(v.object, 0);
    lemma_next_pin(v.object, v.cursor + 1);
}

/// A probe that answers with a positive number turns the device down: the
/// engine fails with `Declined`, and nothing is pinned.
pub proof fn lemma_declined_pins_nothing(v: EngineView, retval: i32)
    requires
        v.stage == Stage::Opened,
        v.loaded,
        retval > 0,
    ensures
        v.after(Event::ProbeRan { status: 0, retval }).stage == Stage::Failed(
            AttachError::Declined,
        ),
        v.after(Event::ProbeRan { status: 0, retval }).pinned.len() == 0,
        v.after(Event::ProbeRan { status: 0, retval }).action() == ActionView::Done,
{
}

/// Once an engine has failed or is done, no event brings it back: the stage
/// stays, and nothing more is pinned.
pub proof fn lemma_end_is_final(v: EngineView, event: Event)
    requires
        v.stage is Failed || v.stage == Stage::Pinned,
    ensures
        v.after(event).stage == v.stage,
        v.after(event).pinned == v.pinned,
{
}

impl View for ObjectInfo {
    type V = ObjectView;

    open spec fn view(&self) -> ObjectView {
        ObjectView {
            programs: self.programs@.map_values(|p: ProgramInfo| (p.name@, p.kind, p.section@)),
            maps: self.maps@.map_values(|m: MapInfo| (m.name@, m.struct_ops)),
        }
    }
}

/// The state in which an engine starts: opened and not yet loaded, or failed
/// at once where the object file could not be opened.
pub open spec fn start(hid: u32, dir: Seq<char>, object: Option<ObjectView>) -> EngineView {
    EngineView {
        stage: match object {
            Some(_) => Stage::Opened,
            None => Stage::Failed(AttachError::InvalidObject),
        },
        loaded: false,
        rollback: false,
        cursor: 0,
        attached: 0,
        pinned: Seq::empty(),
        hid,
        dir,
        object: match object {
            Some(o) => o,
            None => ObjectView { programs: Seq::empty(), maps: Seq::empty() },
        },
    }
}

/// `inv` holds of the state in which an engine starts.
pub proof fn lemma_start_invariant(hid: u32, dir: Seq<char>, object: Option<ObjectView>)
    ensures
        start(hid, dir, object).inv(),
{
}

/// Tells whether the text holds the character.
fn has_char(s: &str, c: char) -> (r: bool)
    ensures
        r == s@.contains(c),
{
    let chars = chars_of(s);
    let mut i: usize = 0;
    while i < chars.len()
        invariant
            i <= chars.len(),
            chars@ == s@,
            forall|k: int| 0 <= k < i ==> chars@[k] != c,
        decreases chars.len() - i,
    {
        if chars[i] == c {
            return true;
        }
        i = i + 1;
    }
    false
}

/// Tells whether two texts are the same.
fn same_str(a: &str, b: &str) -> (r: bool)
    ensures
        r == (a@ == b@),
{
    let x = chars_of(a);
    let y = chars_of(b);
    same_text(&x, &y)
}

/// The path at which `name` is pinned below `dir`.
fn pin_string(dir: &str, name: &str) -> (r: String)
    ensures
        r@ == pin_path(dir@, name@),
{
    let mut out = chars_of(dir);
    let tail = chars_of(name);
    out.push('/');
    push_all(&mut out, &tail);
    string_of(&out)
}

impl ObjectInfo {
    /// Tells whether the object has a program `probe`.
    pub fn has_probe(&self) -> (r: bool)
        ensures
            r == self@.has_probe(),
    {
        let mut i: usize = 0;
        while i < self.programs.len()
            invariant
                i <= self.programs.len(),
                forall|k: int| 0 <= k < i ==> (#[trigger] self@.programs[k]).0 != "probe"@,
            decreases self.programs.len() - i,
        {
            if same_str(self.programs[i].name.as_str(), "probe") {
                proof {
                    assert(self@.programs[i as int].0 == "probe"@);
                }
                return true;
            }
            i = i + 1;
        }
        false
    }

    /// The way in which the object asks to be attached.
    pub fn convention(&self) -> (r: Convention)
        ensures
            r == self@.convention(),
    {
        let mut i: usize = 0;
        while i < self.programs.len()
            invariant
                i <= self.programs.len(),
                forall|k: int|
                    0 <= k < i ==> (#[trigger] self@.programs[k]).1 != ProgramKind::StructOps,
            decreases self.programs.len() - i,
        {
            if self.programs[i].kind == ProgramKind::StructOps {
                proof {
                    assert(self@.programs[i as int].1 == ProgramKind::StructOps);
                }
                return Convention::StructOps;
            }
            i = i + 1;
        }
        Convention::Tracing
    }

    /// The number of items to look through for attaching.
    fn attach_len(&self) -> (r: usize)
        ensures
            r == self@.attach_len(),
    {
        match self.convention() {
            Convention::Tracing => self.programs.len(),
            Convention::StructOps => self.maps.len(),
        }
    }

    /// The first item to attach from `from` on.
    fn next_attach(&self, from: usize) -> (r: usize)
        requires
            from <= self@.attach_len(),
        ensures
            r == self@.next_attach(from as int),
            from <= r <= self@.attach_len(),
    {
        let tracing = self.convention() == Convention::Tracing;
        let n = self.attach_len();
        let mut i: usize = from;
        while i < n
            invariant
                from <= i <= n == self@.attach_len(),
                tracing == (self@.convention() == Convention::Tracing),
                self@.next_attach(from as int) == self@.next_attach(i as int),
            decreases n - i,
        {
            let wanted = if tracing {
                self.programs[i].kind == ProgramKind::Tracing
            } else {
                self.maps[i].struct_ops
            };
            if wanted {
                return i;
            }
            i = i + 1;
        }
        i
    }

    /// The first map to pin from `from` on.
    fn next_pin(&self, from: usize) -> (r: usize)
        requires
            from <= self.maps.len(),
        ensures
            r == self@.next_pin(from as int),
            from <= r <= self.maps.len(),
    {
        let mut i: usize = from;
        while i < self.maps.len()
            invariant
                from <= i <= self.maps.len(),
                self@.next_pin(from as int) == self@.next_pin(i as int),
            decreases self.maps.len() - i,
        {
            if !self.maps[i].struct_ops && !has_char(self.maps[i].name.as_str(), '.') {
                return i;
            }
            i = i + 1;
        }
        i
    }

    /// The struct-ops maps for which the device is to be set before loading.
    fn device_maps(&self) -> (r: Vec<usize>)
        ensures
            r@ == self@.device_maps(self@.maps.len() as int),
    {
        let mut out: Vec<usize> = Vec::new();
        if self.convention() == Convention::Tracing {
            return out;
        }
        let mut i: usize = 0;
        while i < self.maps.len()
            invariant
                i <= self.maps.len(),
                self@.convention() == Convention::StructOps,
                out@ == self@.device_maps(i as int),
            decreases self.maps.len() - i,
        {
            if self.maps[i].struct_ops {
                out.push(i);
            }
            i = i + 1;
        }
        out
    }
}

/// The engine that attaches one object to one device. It says which call to
/// the kernel is due and takes what came of it.
#[derive(Debug)]
pub struct HidBPF {
    stage: Stage,
    loaded: bool,
    rollback: bool,
    cursor: usize,
    attached: usize,
    pinned: Vec<String>,
    hid: u32,
    dir: String,
    object: ObjectInfo,
}

impl View for HidBPF {
    type V = EngineView;

    closed spec fn view(&self) -> EngineView {
        EngineView {
            stage: self.stage,
            loaded: self.loaded,
            rollback: self.rollback,
            cursor: self.cursor as int,
            attached: self.attached as int,
            pinned: self.pinned@.map_values(|p: String| p@),
            hid: self.hid,
            dir: self.dir@,
            object: self.object@,
        }
    }
}

impl HidBPF {
    /// The engine is in a state that the events can lead to.
    #[verifier::type_invariant]
    spec fn is_reachable(&self) -> bool {
        self@.inv()
    }

    /// The engine for the object file at `object_path` and the device. `object`
    /// is what opening the file showed, `None` where it could not be opened.
    /// Everything will be pinned below the directory of the device and of the
    /// name of the object file.
    pub fn new(device: &HidUdev, object_path: &str, object: Option<ObjectInfo>) -> (r: HidBPF)
        ensures
            r@ == start(
                device@.id as u32,
                bpffs_path(device@.sysname, object_stem(object_path@)),
                match object {
                    Some(o) => Some(o@),
                    None => None,
                },
            ),
    {
        let stem = object_stem_of(object_path);
        let sysname = device.sysname();
        let dir = get_bpffs_path(sysname.as_str(), stem.as_str());
        let hid = device.id();
        let ghost opened = object is Some;
        let (stage, info) = match object {
            Some(o) => (Stage::Opened, o),
            None => (
                Stage::Failed(AttachError::InvalidObject),
                ObjectInfo { programs: Vec::new(), maps: Vec::new() },
            ),
        };
        let r = HidBPF {
            stage,
            loaded: false,
            rollback: false,
            cursor: 0,
            attached: 0,
            pinned: Vec::new(),
            hid,
            dir,
            object: info,
        };
        proof {
            assert(r@.pinned =~= Seq::empty());
            assert(r.object@.programs =~= r@.object.programs);
            if !opened {
                assert(r.object@.programs =~= Seq::empty());
                assert(r.object@.maps =~= Seq::empty());
            }
        }
        r
    }

    /// How far the engine has come.
    pub fn stage(&self) -> (r: Stage)
        ensures
            r == self@.stage,
    {
        self.stage
    }

    /// The paths of what is pinned so far. An engine that failed has none.
    pub fn pinned(&self) -> (r: Vec<String>)
        ensures
            r@.map_values(|p: String| p@) == self@.pinned,
            self@.stage is Failed ==> r.len() == 0,
    {
        proof {
            use_type_invariant(self);
        }
        let mut out: Vec<String> = Vec::new();
        let mut i: usize = 0;
        while i < self.pinned.len()
            invariant
                i <= self.pinned.len(),
                out.len() == i,
                forall|k: int| 0 <= k < i ==> (#[trigger] out@[k])@ == self.pinned@[k]@,
            decreases self.pinned.len() - i,
        {
            out.push(self.pinned[i].clone());
            i = i + 1;
        }
        proof {
            assert(out@.map_values(|p: String| p@) =~= self@.pinned);
        }
        out
    }

    /// What the attaching came to: `None` while it goes on, the paths of all
    /// that is pinned once it is done, and why it failed otherwise.
    pub fn result(&self) -> (r: Option<Result<Vec<String>, AttachError>>)
        ensures
            match r {
                Some(Ok(paths)) => self@.result() == Some(
                    Ok::<Seq<Seq<char>>, AttachError>(paths@.map_values(|p: String| p@)),
                ),
                Some(Err(why)) => self@.result() == Some(Err::<Seq<Seq<char>>, AttachError>(why)),
                None => self@.result() is None,
            },
    {
        match self.stage {
            Stage::Pinned => Some(Ok(self.pinned())),
            Stage::Failed(why) => Some(Err(why)),
            _ => None,
        }
    }

    /// What is due now.
    pub fn next_action(&self) -> (r: Action)
        ensures
            r@ == self@.action(),
    {
        proof {
            use_type_invariant(self);
        }
        match self.stage {
            Stage::Opened => if !self.loaded {
                Action::Load { device_maps: self.object.device_maps(), hid: self.hid }
            } else {
                Action::Probe
            },
            Stage::Probed => match self.object.convention() {
                Convention::Tracing => Action::AttachProgram {
                    program: self.cursor,
                    hid: self.hid,
                    pin: pin_string(
                        self.dir.as_str(),
                        self.object.programs[self.cursor].name.as_str(),
                    ),
                },
                Convention::StructOps => Action::AttachMap {
                    map: self.cursor,
                    pin: pin_string(self.dir.as_str(), self.object.maps[self.cursor].name.as_str()),
                },
            },
            Stage::Attached => Action::PinMap {
                map: self.cursor,
                pin: pin_string(self.dir.as_str(), self.object.maps[self.cursor].name.as_str()),
            },
            Stage::Pinned => Action::Done,
            Stage::Failed(_) => if self.rollback {
                Action::Rollback { dir: self.dir.clone() }
            } else {
                Action::Done
            },
        }
    }

    /// The engine after it gave up.
    fn fail(self, why: AttachError) -> (r: HidBPF)
        ensures
            r@ == self@.fail(why),
    {
        let r = HidBPF {
            stage: Stage::Failed(why),
            rollback: why == AttachError::PinFailed,
            attached: 0,
            pinned: Vec::new(),
            loaded: self.loaded,
            cursor: self.cursor,
            hid: self.hid,
            dir: self.dir,
            object: self.object,
        };
        proof {
            assert(r@.pinned =~= Seq::empty());
        }
        r
    }

    /// The engine at the start of the attaching.
    fn enter_attach(self) -> (r: HidBPF)
        requires
            self@.stage == Stage::Opened,
        ensures
            r@ == self@.enter_attach(),
    {
        proof {
            use_type_invariant(&self);
            lemma_next_attach(self@.object, 0);
        }
        let first = self.object.next_attach(0);
        if first < self.object.attach_len() {
            let r = HidBPF {
                stage: Stage::Probed,
                loaded: true,
                cursor: first,
                attached: 0,
                rollback: self.rollback,
                pinned: self.pinned,
                hid: self.hid,
                dir: self.dir,
                object: self.object,
            };
            r
        } else {
            let loaded = HidBPF {
                loaded: true,
                stage: self.stage,
                rollback: self.rollback,
                cursor: self.cursor,
                attached: self.attached,
                pinned: self.pinned,
                hid: self.hid,
                dir: self.dir,
                object: self.object,
            };
            loaded.fail(AttachError::NothingAttached)
        }
    }

    /// The engine at the start of the pinning of the maps.
    fn enter_pin(self) -> (r: HidBPF)
        requires
            self@.attached >= 1,
        ensures
            r@ == self@.enter_pin(),
    {
        proof {
            use_type_invariant(&self);
            lemma_next_pin(self@.object, 0);
        }
        let first = self.object.next_pin(0);
        let stage = if first < self.object.maps.len() {
            Stage::Attached
        } else {
            Stage::Pinned
        };
        HidBPF {
            stage,
            cursor: first,
            loaded: self.loaded,
            rollback: false,
            attached: self.attached,
            pinned: self.pinned,
            hid: self.hid,
            dir: self.dir,
            object: self.object,
        }
    }

    /// The engine after the item under the cursor was dealt with.
    fn attach_done(self, ok: bool) -> (r: HidBPF)
        requires
            self@.stage == Stage::Probed,
        ensures
            r@ == self@.attach_done(ok),
    {
        proof {
            use_type_invariant(&self);
            lemma_next_attach(self@.object, self@.cursor + 1);
            lemma_next_pin(self@.object, 0);
        }
        let ghost before = self@;
        let len = self.object.attach_len();
        proof {
            assert(before.object.attaches(before.cursor));
        }
        let next = self.object.next_attach(self.cursor + 1);
        let mut pinned = self.pinned;
        let mut attached = self.attached;
        if ok {
            let name = match self.object.convention() {
                Convention::Tracing => pin_string(
                    self.dir.as_str(),
                    self.object.programs[self.cursor].name.as_str(),
                ),
                Convention::StructOps => pin_string(
                    self.dir.as_str(),
                    self.object.maps[self.cursor].name.as_str(),
                ),
            };
            pinned.push(name);
            attached = pinned.len();
            proof {
                assert(pinned@.map_values(|p: String| p@) =~= before.pinned.push(
                    before.attach_pin(),
                ));
            }
        }
        if next < len {
            HidBPF {
                stage: self.stage,
                cursor: next,
                attached,
                pinned,
                loaded: self.loaded,
                rollback: self.rollback,
                hid: self.hid,
                dir: self.dir,
                object: self.object,
            }
        } else if attached == 0 {
            let counted = HidBPF {
                stage: self.stage,
                cursor: self.cursor,
                attached,
                pinned,
                loaded: self.loaded,
                rollback: self.rollback,
                hid: self.hid,
                dir: self.dir,
                object: self.object,
            };
            counted.fail(AttachError::NothingAttached)
        } else {
            let counted = HidBPF {
                stage: self.stage,
                cursor: self.cursor,
                attached,
                pinned,
                loaded: self.loaded,
                rollback: self.rollback,
                hid: self.hid,
                dir: self.dir,
                object: self.object,
            };
            counted.enter_pin()
        }
    }

    /// The engine after the map under the cursor was pinned or not.
    fn pin_done(self, ok: bool) -> (r: HidBPF)
        requires
            self@.stage == Stage::Attached,
        ensures
            r@ == self@.pin_done(ok),
    {
        proof {
            use_type_invariant(&self);
            lemma_next_pin(self@.object, self@.cursor + 1);
        }
        if !ok {
            return self.fail(AttachError::PinFailed);
        }
        let ghost before = self@;
        proof {
            assert(before.object.pins(before.cursor));
            assert(before.object.maps.len() == self.object.maps@.len());
        }
        let maps = self.object.maps.len();
        let next = self.object.next_pin(self.cursor + 1);
        let name = pin_string(self.dir.as_str(), self.object.maps[self.cursor].name.as_str());
        let mut pinned = self.pinned;
        pinned.push(name);
        proof {
            assert(pinned@.map_values(|p: String| p@) =~= before.pinned.push(
                pin_path(before.dir, before.object.maps[before.cursor].0),
            ));
        }
        let stage = if next < maps {
            Stage::Attached
        } else {
            Stage::Pinned
        };
        HidBPF {
            stage,
            cursor: next,
            pinned,
            attached: self.attached,
            loaded: self.loaded,
            rollback: self.rollback,
            hid: self.hid,
            dir: self.dir,
            object: self.object,
        }
    }

    /// Takes what came of the action that was due, and gives the engine in its
    /// next state. An event that does not answer the action changes nothing.
    pub fn step(self, event: Event) -> (r: HidBPF)
        ensures
            r@ == self@.after(event),
    {
        proof {
            use_type_invariant(&self);
        }
        match (self.stage, event) {
            (Stage::Opened, Event::Loaded { ok }) => {
                if self.loaded {
                    self
                } else if !ok {
                    self.fail(AttachError::InvalidObject)
                } else if self.object.has_probe() {
                    HidBPF {
                        loaded: true,
                        stage: self.stage,
                        rollback: self.rollback,
                        cursor: self.cursor,
                        attached: self.attached,
                        pinned: self.pinned,
                        hid: self.hid,
                        dir: self.dir,
                        object: self.object,
                    }
                } else {
                    self.enter_attach()
                }
            },
            (Stage::Opened, Event::ProbeRan { status, retval }) => {
                if !self.loaded {
                    self
                } else {
                    match run_syscall_prog_probe(status, retval) {
                        Ok(_) => self.enter_attach(),
                        Err(why) => self.fail(why),
                    }
                }
            },
            (Stage::Probed, Event::ProgramAttached { status, retval, pinned }) => {
                if self.object.convention() == Convention::Tracing {
                    let link = run_syscall_prog_attach(status, retval);
                    self.attach_done(link.is_ok() && pinned)
                } else {
                    self
                }
            },
            (Stage::Probed, Event::MapAttached { pinned }) => {
                if self.object.convention() == Convention::StructOps {
                    self.attach_done(pinned)
                } else {
                    self
                }
            },
            (Stage::Attached, Event::MapPinned { ok }) => self.pin_done(ok),
            (Stage::Failed(_), Event::RolledBack) => HidBPF {
                rollback: false,
                stage: self.stage,
                loaded: self.loaded,
                cursor: self.cursor,
                attached: self.attached,
                pinned: self.pinned,
                hid: self.hid,
                dir: self.dir,
                object: self.object,
            },
            _ => self,
        }
    }
}

} // verus!
