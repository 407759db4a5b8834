use udev_hid_bpf::bpf::{
    get_bpffs_path, object_stem_of, remove_bpf_objects, run_syscall_prog_attach,
    run_syscall_prog_generic, run_syscall_prog_probe, Action, AttachError, Convention, Event,
    HidBPF, MapInfo, ObjectInfo, ProgramInfo, ProgramKind, Stage,
};
use udev_hid_bpf::hidudev::{HidUdev, HidUdevProperty, UdevNode};
use udev_hid_bpf::paths::FileIndex;

fn device() -> HidUdev {
    let node = UdevNode {
        syspath: "/sys/bus/hid/devices/0003:045E:07A5.000B".to_string(),
        sysname: "0003:045E:07A5.000B".to_string(),
        subsystem: Some("hid".to_string()),
        properties: vec![HidUdevProperty {
            name: "HID_BPF_1".to_string(),
            value: "0010-foo.bpf.o".to_string(),
        }],
    };
    HidUdev::from_syspath(&vec![node]).unwrap()
}

fn program(name: &str, kind: ProgramKind) -> ProgramInfo {
    ProgramInfo { name: name.to_string(), section: format!("sec/{name}"), kind }
}

fn map(name: &str, struct_ops: bool) -> MapInfo {
    MapInfo { name: name.to_string(), struct_ops }
}

fn tracing_object(probe: bool) -> ObjectInfo {
    let mut programs = vec![
        program("fix_rdesc", ProgramKind::Tracing),
        program("helper", ProgramKind::Other),
        program("fix_event", ProgramKind::Tracing),
    ];
    if probe {
        programs.insert(1, program("probe", ProgramKind::Syscall));
    }
    ObjectInfo {
        programs,
        maps: vec![map("foo.rodata", false), map("state", false), map("foo.bss", false), map("ring", false)],
    }
}

const DIR: &str = "/sys/fs/bpf/hid/0003_045E_07A5_000B/foo";

fn pin(name: &str) -> String {
    format!("{DIR}/{name}")
}

#[test]
fn the_pin_directory_is_named_after_device_and_object() {
    assert_eq!(
        get_bpffs_path("0003:045E:07A5.000B", "foo"),
        "/sys/fs/bpf/hid/0003_045E_07A5_000B/foo"
    );
    assert_eq!(
        get_bpffs_path("0003:045E:07A5.000B", "0010-foo.bpf"),
        "/sys/fs/bpf/hid/0003_045E_07A5_000B/0010-foo_bpf"
    );
    assert_eq!(get_bpffs_path("a.b:c", "x:y.z"), "/sys/fs/bpf/hid/a_b_c/x_y_z");
    assert_eq!(get_bpffs_path("", ""), "/sys/fs/bpf/hid//");
    assert_eq!(remove_bpf_objects("0003:045E:07A5.000B"), "/sys/fs/bpf/hid/0003_045E_07A5_000B/");
}

#[test]
fn the_object_is_pinned_under_its_stem() {
    assert_eq!(object_stem_of("/usr/lib/firmware/hid/bpf/0010-foo.bpf.o"), "foo");
    assert_eq!(object_stem_of("0010-Foo-Bar.bpf.o"), "Foo-Bar");
    assert_eq!(object_stem_of("plain.bpf.o"), "plain");
    assert_eq!(object_stem_of("/x/0010-foo.o"), "foo.o");
    assert_eq!(object_stem_of("/x/.bpf.o"), "");
    assert_eq!(object_stem_of("/x/0010-foo.bpf.o/"), "foo");
    assert_eq!(object_stem_of("/x/0010-foo.bpf.o/."), "foo");
    assert_eq!(object_stem_of("/x//0010-foo.bpf.o///"), "foo");
    assert_eq!(object_stem_of("/x/-foo.bpf.o"), "foo");
    assert_eq!(object_stem_of("/x/foo-.bpf.o"), "");
    assert_eq!(object_stem_of(""), "");
    assert_eq!(object_stem_of("/"), "");
}

#[test]
fn verdicts_of_the_calls() {
    assert_eq!(run_syscall_prog_generic(0), Ok(()));
    assert_eq!(run_syscall_prog_generic(-22), Err(22));
    assert_eq!(run_syscall_prog_generic(i32::MIN), Err(2147483648));
    assert_eq!(run_syscall_prog_attach(0, 7), Ok(7));
    assert_eq!(run_syscall_prog_attach(0, 0), Ok(0));
    assert_eq!(run_syscall_prog_attach(0, -19), Err(19));
    assert_eq!(run_syscall_prog_attach(-1, 7), Err(1));
    assert_eq!(run_syscall_prog_probe(0, 0), Ok(()));
    assert_eq!(run_syscall_prog_probe(0, 1), Err(AttachError::Declined));
    assert_eq!(run_syscall_prog_probe(0, i32::MAX), Err(AttachError::Declined));
    assert_eq!(run_syscall_prog_probe(0, -22), Err(AttachError::ProbeSyscallError));
    assert_eq!(run_syscall_prog_probe(-14, 0), Err(AttachError::ProbeSyscallError));
    assert_eq!(run_syscall_prog_probe(-14, 5), Err(AttachError::ProbeSyscallError));
}

#[test]
fn an_object_is_probed_attached_and_pinned() {
    let dev = device();
    let mut engine = HidBPF::new(&dev, "/usr/lib/firmware/0010-foo.bpf.o", Some(tracing_object(true)));
    assert_eq!(engine.stage(), Stage::Opened);
    assert_eq!(engine.next_action(), Action::Load { device_maps: vec![], hid: 0xB });
    engine = engine.step(Event::Loaded { ok: true });
    assert_eq!(engine.next_action(), Action::Probe);
    engine = engine.step(Event::ProbeRan { status: 0, retval: 0 });
    assert_eq!(engine.stage(), Stage::Probed);
    assert_eq!(engine.next_action(), Action::AttachProgram { program: 0, hid: 0xB, pin: pin("fix_rdesc") });
    engine = engine.step(Event::ProgramAttached { status: 0, retval: 12, pinned: true });
    assert_eq!(engine.next_action(), Action::AttachProgram { program: 3, hid: 0xB, pin: pin("fix_event") });
    engine = engine.step(Event::ProgramAttached { status: 0, retval: 13, pinned: true });
    assert_eq!(engine.stage(), Stage::Attached);
    assert_eq!(engine.next_action(), Action::PinMap { map: 1, pin: pin("state") });
    engine = engine.step(Event::MapPinned { ok: true });
    assert_eq!(engine.next_action(), Action::PinMap { map: 3, pin: pin("ring") });
    engine = engine.step(Event::MapPinned { ok: true });
    assert_eq!(engine.stage(), Stage::Pinned);
    assert_eq!(engine.next_action(), Action::Done);
    assert_eq!(engine.pinned(), vec![pin("fix_rdesc"), pin("fix_event"), pin("state"), pin("ring")]);
    assert_eq!(engine.result(), Some(Ok(engine.pinned())));
    engine = engine.step(Event::MapPinned { ok: false });
    assert_eq!(engine.stage(), Stage::Pinned);
    assert_eq!(engine.pinned().len(), 4);
}

#[test]
fn a_probe_that_says_no_declines_the_device() {
    for retval in [1, 2, 4096, i32::MAX] {
        let dev = device();
        let engine = HidBPF::new(&dev, "0010-foo.bpf.o", Some(tracing_object(true)))
            .step(Event::Loaded { ok: true })
            .step(Event::ProbeRan { status: 0, retval });
        assert_eq!(engine.stage(), Stage::Failed(AttachError::Declined));
        assert_eq!(engine.result(), Some(Err(AttachError::Declined)));
        assert_eq!(engine.pinned(), Vec::<String>::new());
        assert_eq!(engine.next_action(), Action::Done);
    }
}

#[test]
fn a_probe_that_fails_is_an_error() {
    for (status, retval) in [(0, -1), (0, -22), (-1, 0), (-22, 7), (1, 0)] {
        let dev = device();
        let engine = HidBPF::new(&dev, "0010-foo.bpf.o", Some(tracing_object(true)))
            .step(Event::Loaded { ok: true })
            .step(Event::ProbeRan { status, retval });
        assert_eq!(engine.stage(), Stage::Failed(AttachError::ProbeSyscallError));
        assert_eq!(engine.pinned(), Vec::<String>::new());
    }
}

#[test]
fn an_object_without_a_probe_is_attached_at_once() {
    let dev = device();
    let engine = HidBPF::new(&dev, "0010-foo.bpf.o", Some(tracing_object(false)))
        .step(Event::Loaded { ok: true });
    assert_eq!(engine.stage(), Stage::Probed);
    assert_eq!(engine.result(), None);
    assert_eq!(engine.next_action(), Action::AttachProgram { program: 0, hid: 0xB, pin: pin("fix_rdesc") });
    let engine = engine.step(Event::ProbeRan { status: 0, retval: 1 });
    assert_eq!(engine.stage(), Stage::Probed);
}

#[test]
fn an_object_that_cannot_be_opened_or_loaded_is_invalid() {
    let dev = device();
    let engine = HidBPF::new(&dev, "0010-foo.bpf.o", None);
    assert_eq!(engine.stage(), Stage::Failed(AttachError::InvalidObject));
    assert_eq!(engine.next_action(), Action::Done);
    let engine = HidBPF::new(&dev, "0010-foo.bpf.o", Some(tracing_object(true)))
        .step(Event::Loaded { ok: false });
    assert_eq!(engine.stage(), Stage::Failed(AttachError::InvalidObject));
    assert_eq!(engine.pinned(), Vec::<String>::new());
}

#[test]
fn one_program_that_fails_does_not_stop_the_others() {
    let dev = device();
    let engine = HidBPF::new(&dev, "0010-foo.bpf.o", Some(tracing_object(false)))
        .step(Event::Loaded { ok: true })
        .step(Event::ProgramAttached { status: 0, retval: -22, pinned: false });
    assert_eq!(engine.stage(), Stage::Probed);
    assert_eq!(engine.next_action(), Action::AttachProgram { program: 2, hid: 0xB, pin: pin("fix_event") });
    let engine = engine.step(Event::ProgramAttached { status: 0, retval: 5, pinned: true });
    assert_eq!(engine.stage(), Stage::Attached);
    assert_eq!(engine.pinned(), vec![pin("fix_event")]);
}

#[test]
fn nothing_attached_is_a_failure() {
    let dev = device();
    let engine = HidBPF::new(&dev, "0010-foo.bpf.o", Some(tracing_object(false)))
        .step(Event::Loaded { ok: true })
        .step(Event::ProgramAttached { status: -1, retval: 5, pinned: true })
        .step(Event::ProgramAttached { status: 0, retval: 5, pinned: false });
    assert_eq!(engine.stage(), Stage::Failed(AttachError::NothingAttached));
    assert_eq!(engine.pinned(), Vec::<String>::new());
    assert_eq!(engine.next_action(), Action::Done);

    let no_programs = ObjectInfo { programs: vec![program("probe", ProgramKind::Syscall)], maps: vec![map("m", false)] };
    let engine = HidBPF::new(&dev, "0010-foo.bpf.o", Some(no_programs))
        .step(Event::Loaded { ok: true })
        .step(Event::ProbeRan { status: 0, retval: 0 });
    assert_eq!(engine.stage(), Stage::Failed(AttachError::NothingAttached));
}

#[test]
fn a_map_that_cannot_be_pinned_takes_everything_back() {
    let dev = device();
    let engine = HidBPF::new(&dev, "0010-foo.bpf.o", Some(tracing_object(false)))
        .step(Event::Loaded { ok: true })
        .step(Event::ProgramAttached { status: 0, retval: 4, pinned: true })
        .step(Event::ProgramAttached { status: 0, retval: 5, pinned: true })
        .step(Event::MapPinned { ok: true });
    assert_eq!(engine.pinned().len(), 3);
    let engine = engine.step(Event::MapPinned { ok: false });
    assert_eq!(engine.stage(), Stage::Failed(AttachError::PinFailed));
    assert_eq!(engine.pinned(), Vec::<String>::new());
    assert_eq!(engine.next_action(), Action::Rollback { dir: DIR.to_string() });
    let engine = engine.step(Event::RolledBack);
    assert_eq!(engine.stage(), Stage::Failed(AttachError::PinFailed));
    assert_eq!(engine.next_action(), Action::Done);
}

#[test]
fn struct_ops_maps_are_bound_to_the_device_and_attached() {
    let object = ObjectInfo {
        programs: vec![
            program("probe", ProgramKind::Syscall),
            program("hid_fix", ProgramKind::StructOps),
            program("trace_me", ProgramKind::Tracing),
        ],
        maps: vec![map("config", false), map("ops_a", true), map("obj.data", false), map("ops_b", true)],
    };
    assert_eq!(object.convention(), Convention::StructOps);
    assert!(object.has_probe());
    let dev = device();
    let engine = HidBPF::new(&dev, "/lib/0010-foo.bpf.o", Some(object));
    assert_eq!(engine.next_action(), Action::Load { device_maps: vec![1, 3], hid: 0xB });
    let engine = engine.step(Event::Loaded { ok: true }).step(Event::ProbeRan { status: 0, retval: 0 });
    assert_eq!(engine.next_action(), Action::AttachMap { map: 1, pin: pin("ops_a") });
    let engine = engine.step(Event::ProgramAttached { status: 0, retval: 3, pinned: true });
    assert_eq!(engine.next_action(), Action::AttachMap { map: 1, pin: pin("ops_a") });
    let engine = engine.step(Event::MapAttached { pinned: true });
    assert_eq!(engine.next_action(), Action::AttachMap { map: 3, pin: pin("ops_b") });
    let engine = engine.step(Event::MapAttached { pinned: false });
    assert_eq!(engine.stage(), Stage::Attached);
    assert_eq!(engine.next_action(), Action::PinMap { map: 0, pin: pin("config") });
    let engine = engine.step(Event::MapPinned { ok: true });
    assert_eq!(engine.stage(), Stage::Pinned);
    assert_eq!(engine.pinned(), vec![pin("ops_a"), pin("config")]);
}

#[test]
fn an_object_with_tracing_programs_only_follows_the_tracing_convention() {
    assert_eq!(tracing_object(true).convention(), Convention::Tracing);
    assert!(tracing_object(true).has_probe());
    assert!(!tracing_object(false).has_probe());
}

#[test]
fn events_out_of_turn_change_nothing() {
    let dev = device();
    let engine = HidBPF::new(&dev, "0010-foo.bpf.o", Some(tracing_object(true)))
        .step(Event::ProbeRan { status: 0, retval: 1 })
        .step(Event::MapPinned { ok: false })
        .step(Event::RolledBack)
        .step(Event::ProgramAttached { status: 0, retval: 1, pinned: true });
    assert_eq!(engine.stage(), Stage::Opened);
    assert_eq!(engine.next_action(), Action::Load { device_maps: vec![], hid: 0xB });
    assert_eq!(engine.pinned(), Vec::<String>::new());
}

#[test]
fn a_device_is_resolved_matched_attached_and_removed() {
    let dev = device();
    assert_eq!(dev.sysname(), "0003:045E:07A5.000B");
    assert_eq!(dev.id(), 0x000B);
    assert_eq!(dev.hid_bpf_properties(), vec!["0010-foo.bpf.o".to_string()]);

    let dirs = vec!["/usr/local/lib/firmware/hid/bpf".to_string()];
    let mut files = FileIndex::new();
    files.files.push("/usr/local/lib/firmware/hid/bpf/0010-foo.bpf.o".to_string());
    let found = dev.objfiles_to_load(&[], &dirs, &files);
    assert_eq!(found, vec!["/usr/local/lib/firmware/hid/bpf/0010-foo.bpf.o".to_string()]);

    let mut plan = dev.load_bpf_files(&found);
    let path = plan.current().unwrap();
    let object = ObjectInfo { programs: vec![program("prog", ProgramKind::Tracing)], maps: vec![] };
    let engine = HidBPF::new(&dev, &path, Some(object))
        .step(Event::Loaded { ok: true })
        .step(Event::ProgramAttached { status: 0, retval: 9, pinned: true });
    assert_eq!(engine.stage(), Stage::Pinned);
    assert_eq!(engine.pinned(), vec!["/sys/fs/bpf/hid/0003_045E_07A5_000B/foo/prog".to_string()]);
    plan.record(true);
    assert_eq!(plan.current(), None);

    assert_eq!(dev.remove_bpf_objects(), "/sys/fs/bpf/hid/0003_045E_07A5_000B/");
    let removed = remove_bpf_objects(&dev.sysname());
    assert_eq!(removed, "/sys/fs/bpf/hid/0003_045E_07A5_000B/");
    assert!(engine.pinned()[0].starts_with(&removed));
    assert_eq!(remove_bpf_objects(&dev.sysname()), removed);
}

#[test]
fn when_every_call_succeeds_everything_is_pinned() {
    let mut programs = vec![program("probe", ProgramKind::Syscall)];
    let mut maps = Vec::new();
    let mut expected = Vec::new();
    for i in 0..40 {
        let kind = if i % 3 == 0 { ProgramKind::Other } else { ProgramKind::Tracing };
        programs.push(program(&format!("prog{i}"), kind));
        if i % 3 != 0 {
            expected.push(pin(&format!("prog{i}")));
        }
    }
    for i in 0..25 {
        let name = if i % 4 == 1 { format!("obj.map{i}") } else { format!("map{i}") };
        if i % 4 != 1 {
            expected.push(pin(&name));
        }
        maps.push(map(&name, false));
    }
    let dev = device();
    let mut engine = HidBPF::new(&dev, "/lib/firmware/0010-foo.bpf.o", Some(ObjectInfo { programs, maps }));
    let mut steps = 0;
    loop {
        let event = match engine.next_action() {
            Action::Load { .. } => Event::Loaded { ok: true },
            Action::Probe => Event::ProbeRan { status: 0, retval: 0 },
            Action::AttachProgram { .. } => {
                Event::ProgramAttached { status: 0, retval: 3 + steps, pinned: true }
            }
            Action::AttachMap { .. } => Event::MapAttached { pinned: true },
            Action::PinMap { .. } => Event::MapPinned { ok: true },
            Action::Rollback { .. } => panic!("nothing failed"),
            Action::Done => break,
        };
        engine = engine.step(event);
        steps += 1;
    }
    assert!(steps <= 40 + 1 + 25 + 3);
    assert_eq!(engine.stage(), Stage::Pinned);
    assert_eq!(engine.result(), Some(Ok(expected)));
}
