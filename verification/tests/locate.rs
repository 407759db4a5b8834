use udev_hid_bpf::hidudev::{HidUdev, HidUdevProperty, UdevNode};
use udev_hid_bpf::paths::FileIndex;
use udev_hid_bpf::plan::LoadPlan;

fn strings(items: &[&str]) -> Vec<String> {
    items.iter().map(|s| s.to_string()).collect()
}

fn join(dir: &str, name: &str) -> String {
    format!("{dir}/{name}")
}

fn index_of(files: &[String]) -> FileIndex {
    let mut index = FileIndex::new();
    for f in files {
        index.files.push(f.clone());
    }
    index
}

fn device(properties: &[(&str, &str)]) -> HidUdev {
    let node = UdevNode {
        syspath: "/sys/devices/pci0000:00/usb1/0003:045E:07A5.000B".to_string(),
        sysname: "0003:045E:07A5.000B".to_string(),
        subsystem: Some("hid".to_string()),
        properties: properties
            .iter()
            .map(|(n, v)| HidUdevProperty { name: n.to_string(), value: v.to_string() })
            .collect(),
    };
    HidUdev::from_syspath(&vec![node]).unwrap()
}

#[test]
fn test_bpf_lookup() {
    let base_path = "/tmp/lookup";
    let usr_local = join(base_path, "usr/local/lib/firmware");
    let usr = join(base_path, "lib/firmware");

    let ignored1 = join(&usr_local, "0010-ignored.bpf.c"); // .c extension
    let ignored2 = join(&usr_local, "0010-ignored.o"); // not bpf.o
    let one_local = join(&usr_local, "0010-one.bpf.o");
    let one_usr = join(&usr, "0020-one.bpf.o");
    let two_local = join(&usr_local, "0010-two.bpf.o");
    let three_local = join(&usr_local, "0020-three.bpf.o");
    let three_usr = join(&usr, "0010-three.bpf.o");
    let files = index_of(&[ignored1, ignored2, one_local, one_usr, two_local, three_local, three_usr]);

    let dirs = [usr_local.clone(), usr.clone()];

    let props: Vec<String> = strings(&["0010-one.bpf.o", "0020-one.bpf.o", "0010-two.bpf.o"]);
    let objfiles = HidUdev::find_named_objfiles(&props, &dirs, &files);
    assert!(!objfiles.is_empty());
    let expected = [
        &join(&usr_local, "0010-one.bpf.o"),
        &join(&usr, "0020-one.bpf.o"),
        &join(&usr_local, "0010-two.bpf.o"),
    ];
    objfiles
        .iter()
        .zip(expected)
        .for_each(|(objfile, exp)| assert!(&objfile == &exp, "{objfile:?} == {exp:?}"));
    assert_eq!(objfiles.len(), 3);

    // test that ignored is ignored
    let props: Vec<String> = strings(&["0010-one.bpf.o", "0010-ignored.bpf.c", "0010-two.bpf.o"]);
    let objfiles = HidUdev::find_named_objfiles(&props, &dirs, &files);
    assert!(!objfiles.is_empty());
    let expected = [&join(&usr_local, "0010-one.bpf.o"), &join(&usr_local, "0010-two.bpf.o")];
    objfiles
        .iter()
        .zip(expected)
        .for_each(|(objfile, exp)| assert!(&objfile == &exp, "{objfile:?} == {exp:?}"));
    assert_eq!(objfiles.len(), 2);

    // and a non-existing one
    let props: Vec<String> =
        strings(&["0010-one.bpf.o", "0010-does-not-exist.bpf.o", "0010-three.bpf.o"]);
    let objfiles = HidUdev::find_named_objfiles(&props, &dirs, &files);
    assert!(!objfiles.is_empty());
    let expected = [&join(&usr_local, "0010-one.bpf.o"), &join(&usr, "0010-three.bpf.o")];
    objfiles
        .iter()
        .filter(|p| p.ends_with("bpf.o"))
        .zip(expected)
        .for_each(|(objfile, exp)| assert!(&objfile == &exp, "{objfile:?} == {exp:?}"));
    assert_eq!(objfiles.len(), 2);
}

#[test]
fn test_bpf_stem_sorting() {
    let base_path = "/tmp/sorting";
    let usr_local = join(base_path, "usr/local/lib/firmware");
    let usr = join(base_path, "lib/firmware");

    let files = vec![
        join(&usr_local, "0010-one.bpf.o"),
        join(&usr, "0020-ONE.bpf.o"),
        join(&usr_local, "0010-two.bpf.o"),
        join(&usr, "0010-three.bpf.o"),
        join(&usr_local, "0020-three.bpf.o"),
        join(&usr_local, "0030-THREE.bpf.o"),
    ];

    // The returned list is dict sorted by stem
    let expected: Vec<Vec<String>> = vec![
        vec![join(&usr, "0020-ONE.bpf.o"), join(&usr_local, "0010-one.bpf.o")],
        vec![
            join(&usr_local, "0030-THREE.bpf.o"),
            join(&usr_local, "0020-three.bpf.o"),
            join(&usr, "0010-three.bpf.o"),
        ],
        vec![join(&usr_local, "0010-two.bpf.o")],
    ];
    let stem_sorted = HidUdev::sort_by_stem(&files);

    for (exp, sorted) in expected.iter().zip(stem_sorted.clone()) {
        for (e, s) in exp.iter().zip(sorted) {
            assert!(e == &s, "expected {e:?} == have {s:?}");
        }
    }
    assert_eq!(stem_sorted, expected);
}

#[test]
fn the_greater_prefix_comes_first_in_either_input_order() {
    let a = "/dirA/20-ONE.bpf.o".to_string();
    let b = "/dirB/10-one.bpf.o".to_string();
    let expected = vec![vec![a.clone(), b.clone()]];
    assert_eq!(HidUdev::sort_by_stem(&[a.clone(), b.clone()]), expected);
    assert_eq!(HidUdev::sort_by_stem(&[b, a]), expected);
}

#[test]
fn groups_do_not_depend_on_the_input_order() {
    let files = strings(&[
        "/a/0010-one.bpf.o",
        "/b/0020-ONE.bpf.o",
        "/a/0010-two.bpf.o",
        "/b/0010-three.bpf.o",
        "/a/0020-three.bpf.o",
        "/a/0030-THREE.bpf.o",
    ]);
    let expected = HidUdev::sort_by_stem(&files);
    let mut reversed = files.clone();
    reversed.reverse();
    assert_eq!(HidUdev::sort_by_stem(&reversed), expected);
    let rotated: Vec<String> = files.iter().cycle().skip(2).take(files.len()).cloned().collect();
    assert_eq!(HidUdev::sort_by_stem(&rotated), expected);
}

#[test]
fn equal_names_keep_the_order_of_the_directories() {
    let first = "/etc/firmware/0010-foo.bpf.o".to_string();
    let second = "/usr/lib/firmware/0010-FOO.bpf.o".to_string();
    assert_eq!(
        HidUdev::sort_by_stem(&[first.clone(), second.clone()]),
        vec![vec![first.clone(), second.clone()]]
    );
    assert_eq!(
        HidUdev::sort_by_stem(&[second.clone(), first.clone()]),
        vec![vec![second, first]]
    );
}

#[test]
fn three_stems_give_three_groups() {
    let files = strings(&[
        "/dirA/10-one.bpf.o",
        "/dirB/20-one.bpf.o",
        "/dirA/10-three.bpf.o",
        "/dirB/20-three.bpf.o",
        "/dirA/30-three.bpf.o",
        "/dirA/10-two.bpf.o",
    ]);
    let groups = HidUdev::sort_by_stem(&files);
    assert_eq!(
        groups,
        vec![
            strings(&["/dirB/20-one.bpf.o", "/dirA/10-one.bpf.o"]),
            strings(&["/dirA/30-three.bpf.o", "/dirB/20-three.bpf.o", "/dirA/10-three.bpf.o"]),
            strings(&["/dirA/10-two.bpf.o"]),
        ]
    );
}

#[test]
fn a_name_without_a_dash_is_its_own_stem() {
    let files = strings(&["/d/zeta.bpf.o", "/d/10-alpha.bpf.o", "/d/Zeta.bpf.o"]);
    assert_eq!(
        HidUdev::sort_by_stem(&files),
        vec![strings(&["/d/10-alpha.bpf.o"]), strings(&["/d/zeta.bpf.o", "/d/Zeta.bpf.o"])]
    );
    assert_eq!(HidUdev::sort_by_stem(&[]), Vec::<Vec<String>>::new());
}

#[test]
fn stems_fold_case_beyond_ascii() {
    let files = strings(&["/d/10-\u{c9}t\u{e9}.bpf.o", "/d/20-\u{e9}T\u{c9}.bpf.o"]);
    assert_eq!(
        HidUdev::sort_by_stem(&files),
        vec![strings(&["/d/20-\u{e9}T\u{c9}.bpf.o", "/d/10-\u{c9}t\u{e9}.bpf.o"])]
    );
}

#[test]
fn widths_of_prefixes_are_compared_as_text() {
    let files = strings(&["/d/100-foo.bpf.o", "/d/20-foo.bpf.o"]);
    assert_eq!(
        HidUdev::sort_by_stem(&files),
        vec![strings(&["/d/20-foo.bpf.o", "/d/100-foo.bpf.o"])]
    );
}

#[test]
fn the_first_directory_wins() {
    let dirs = strings(&["/dirA", "/dirB"]);
    let both = index_of(&strings(&["/dirB/x.bpf.o", "/dirA/x.bpf.o"]));
    assert_eq!(
        HidUdev::find_first_matching_file(&dirs, "x.bpf.o", &both),
        Some("/dirA/x.bpf.o".to_string())
    );
    let only_b = index_of(&strings(&["/dirB/x.bpf.o"]));
    assert_eq!(
        HidUdev::find_first_matching_file(&dirs, "x.bpf.o", &only_b),
        Some("/dirB/x.bpf.o".to_string())
    );
    assert_eq!(HidUdev::find_first_matching_file(&dirs, "y.bpf.o", &both), None);
    assert_eq!(HidUdev::find_first_matching_file(&[], "x.bpf.o", &both), None);
}

#[test]
fn a_directory_is_no_match() {
    let dirs = strings(&["/dirA/", "/dirB"]);
    let mut index = FileIndex::new();
    index.others.push("/dirA/x.bpf.o".to_string());
    index.files.push("/dirB/x.bpf.o".to_string());
    assert_eq!(
        HidUdev::find_first_matching_file(&dirs, "x.bpf.o", &index),
        Some("/dirB/x.bpf.o".to_string())
    );
}

#[test]
fn an_absolute_path_at_which_something_exists_stands_for_itself() {
    let dirs = strings(&["/dirA"]);
    let mut index = index_of(&strings(&["/dirA/0010-foo.bpf.o", "/home/me/0010-foo.bpf.o"]));
    index.others.push("/home/me/dir.bpf.o".to_string());
    let names = strings(&["/home/me/0010-foo.bpf.o", "0010-foo.bpf.o", "/home/me/dir.bpf.o"]);
    assert_eq!(
        HidUdev::find_named_objfiles(&names, &dirs, &index),
        strings(&["/home/me/0010-foo.bpf.o", "/dirA/0010-foo.bpf.o", "/home/me/dir.bpf.o"])
    );
    assert_eq!(
        HidUdev::find_named_objfiles(&names[..1], &[], &index),
        strings(&["/home/me/0010-foo.bpf.o"])
    );
    assert_eq!(
        HidUdev::find_named_objfiles(&strings(&["/home/me/gone.bpf.o"]), &dirs, &index),
        Vec::<String>::new()
    );
}

#[test]
fn a_relative_name_is_looked_up_even_where_it_exists() {
    let mut index = index_of(&strings(&["x.bpf.o", "sub/y.bpf.o", "/fw/sub/y.bpf.o"]));
    index.others.push("z.bpf.o".to_string());
    let names = strings(&["x.bpf.o", "sub/y.bpf.o", "z.bpf.o"]);
    assert_eq!(HidUdev::find_named_objfiles(&names, &[], &index), Vec::<String>::new());
    assert_eq!(
        HidUdev::find_named_objfiles(&names, &strings(&["/fw"]), &index),
        strings(&["/fw/sub/y.bpf.o"])
    );
    assert_eq!(
        HidUdev::find_named_objfiles(&names, &strings(&["", "/fw"]), &index),
        strings(&["x.bpf.o", "sub/y.bpf.o"])
    );
}

#[test]
fn hints_are_looked_up_in_the_directories() {
    let dev = device(&[
        ("HID_NAME", "Microsoft Mouse"),
        ("HID_BPF_1", "0010-foo.bpf.o"),
        ("MODALIAS", "hid:b0003g0001v0000045Ep000007A5"),
        ("HID_BPF_2", "0010-missing.bpf.o"),
        ("HID_BPF_3", "0010-readme.txt"),
    ]);
    assert_eq!(dev.hid_bpf_properties(), strings(&["0010-foo.bpf.o", "0010-missing.bpf.o", "0010-readme.txt"]));
    let dirs = strings(&["/etc/firmware", "/usr/lib/firmware"]);
    let index = index_of(&strings(&["/usr/lib/firmware/0010-foo.bpf.o", "/etc/firmware/0010-readme.txt"]));
    assert_eq!(
        dev.search_for_matching_objfiles(&dirs, &index),
        strings(&["/usr/lib/firmware/0010-foo.bpf.o"])
    );
    assert_eq!(dev.objfiles_to_load(&[], &dirs, &index), strings(&["/usr/lib/firmware/0010-foo.bpf.o"]));
}

#[test]
fn hints_are_resolved_as_requested_names() {
    let dev = device(&[
        ("HID_BPF_1", "/opt/objects/0010-abs.bpf.o"),
        ("HID_BPF_2", "0010-rel.bpf.o"),
        ("HID_BPF_3", "0010-here.bpf.o"),
    ]);
    let mut index = index_of(&strings(&["fw/0010-rel.bpf.o", "0010-here.bpf.o"]));
    index.others.push("/opt/objects/0010-abs.bpf.o".to_string());
    let dirs = strings(&["fw"]);
    assert_eq!(
        dev.search_for_matching_objfiles(&dirs, &index),
        strings(&["/opt/objects/0010-abs.bpf.o", "fw/0010-rel.bpf.o"])
    );
    assert_eq!(
        dev.search_for_matching_objfiles(&dirs, &index),
        HidUdev::find_named_objfiles(&dev.hid_bpf_properties(), &dirs, &index)
    );
}

#[test]
fn an_ignored_device_gets_nothing_unless_asked_by_name() {
    let dev = device(&[("HID_BPF_1", "0010-foo.bpf.o"), ("HID_BPF_IGNORE_DEVICE", "")]);
    assert!(dev.is_ignored());
    let dirs = strings(&["/usr/lib/firmware"]);
    let index = index_of(&strings(&["/usr/lib/firmware/0010-foo.bpf.o", "/usr/lib/firmware/0020-bar.bpf.o"]));
    assert_eq!(dev.objfiles_to_load(&[], &dirs, &index), Vec::<String>::new());
    assert_eq!(
        dev.objfiles_to_load(&strings(&["0020-bar.bpf.o"]), &dirs, &index),
        strings(&["/usr/lib/firmware/0020-bar.bpf.o"])
    );
}

#[test]
fn a_group_ends_with_the_first_that_loads() {
    let dev = device(&[]);
    let files = strings(&[
        "/a/0010-one.bpf.o",
        "/b/0020-one.bpf.o",
        "/a/0030-one.bpf.o",
        "/a/0010-two.bpf.o",
    ]);
    let mut plan = dev.load_bpf_files(&files);
    assert_eq!(plan.current(), Some("/a/0030-one.bpf.o".to_string()));
    plan.record(false);
    assert_eq!(plan.current(), Some("/b/0020-one.bpf.o".to_string()));
    plan.record(true);
    assert_eq!(plan.current(), Some("/a/0010-two.bpf.o".to_string()));
    plan.record(true);
    assert_eq!(plan.current(), None);
    plan.record(true);
    assert_eq!(plan.current(), None);
}

#[test]
fn a_group_in_which_nothing_loads_is_left_behind() {
    let mut plan = LoadPlan::new(vec![
        vec![],
        strings(&["a", "b"]),
        vec![],
        strings(&["c"]),
    ]);
    let mut tried = Vec::new();
    while let Some(path) = plan.current() {
        tried.push(path);
        plan.record(false);
    }
    assert_eq!(tried, strings(&["a", "b", "c"]));
    assert_eq!(LoadPlan::new(vec![]).current(), None);
    assert_eq!(LoadPlan::new(vec![vec![], vec![]]).current(), None);
}

#[test]
fn a_lookup_asks_about_each_name_and_each_directory() {
    let names = strings(&["a.bpf.o", "/abs/b.bpf.o", ""]);
    let dirs = strings(&["/etc/fw", "rel/", ""]);
    assert_eq!(
        HidUdev::paths_to_probe(&names, &dirs),
        strings(&[
            "/etc/fw/a.bpf.o",
            "rel/a.bpf.o",
            "a.bpf.o",
            "/abs/b.bpf.o",
            "/abs/b.bpf.o",
            "/abs/b.bpf.o",
            "/abs/b.bpf.o",
            "/etc/fw/",
            "rel/",
            "",
        ])
    );
    assert_eq!(HidUdev::paths_to_probe(&[], &dirs), Vec::<String>::new());
    assert_eq!(HidUdev::paths_to_probe(&names[..1], &[]), Vec::<String>::new());
    assert_eq!(HidUdev::paths_to_probe(&names[1..2], &[]), strings(&["/abs/b.bpf.o"]));
}

#[test]
fn priorities_of_different_lengths_are_noticed() {
    assert!(HidUdev::prefix_widths_differ(&strings(&["/d/100-foo.bpf.o", "/d/20-FOO.bpf.o"])));
    assert!(HidUdev::prefix_widths_differ(&strings(&["/d/foo.bpf.o", "/d/20-foo.bpf.o"])));
    assert!(!HidUdev::prefix_widths_differ(&strings(&["/d/0100-foo.bpf.o", "/e/0020-foo.bpf.o"])));
    assert!(!HidUdev::prefix_widths_differ(&strings(&["/d/100-foo.bpf.o", "/d/20-bar.bpf.o"])));
    assert!(!HidUdev::prefix_widths_differ(&[]));
}
