//! Finding the object files of a device in the search directories, and
//! ordering them into fallback groups.

use crate::hidudev::{hints, property_value, HidUdev};
use crate::order::same_text;
use crate::paths::{
    after_dash_of, ends_with, file_name, file_name_of, is_absolute, is_object_name, join,
    join_path, lowercase_of, object_suffix, priority_len, sort_key_of, stem_of, FileIndex,
};
use crate::plan::{
    group_by_keys, is_group, is_plan, path_rows, rows, stem_of_group, texts, LoadPlan,
};
use crate::plan_laws::{
    is_loose_group, is_renumbering, is_row, lemma_loose_plans_share_stems, lemma_plan_is_loose,
    lemma_renumbered_plan, lemma_rows_show_the_same, renumbered, ties_are_twins,
};
use crate::text::{chars_of, find_char, string_of, views};
use vstd::prelude::*;

verus! {

/// The path of `name` below the first directory that holds it as a regular
/// file.
pub open spec fn first_match(dirs: Seq<Seq<char>>, name: Seq<char>, files: FileIndex) -> Option<
    Seq<char>,
>
    decreases dirs.len(),
{
    if dirs.len() == 0 {
        None
    } else if files.spec_is_file(join(dirs[0], name)) {
        Some(join(dirs[0], name))
    } else {
        first_match(dirs.skip(1), name, files)
    }
}

/// The object file that a requested name stands for, if any: a name without
/// the suffix of object files stands for none; an absolute path at which
/// something exists stands for itself; any other name for its first match in
/// the directories.
pub open spec fn named_objfile(
    name: Seq<char>,
    dirs: Seq<Seq<char>>,
    files: FileIndex,
) -> Option<Seq<char>> {
    if !ends_with(name, object_suffix()) {
        None
    } else if is_absolute(name) && files.spec_is_present(name) {
        Some(name)
    } else {
        first_match(dirs, name, files)
    }
}

/// The object files that the requested names stand for, in the order of the
/// names.
pub open spec fn named_objfiles(
    names: Seq<Seq<char>>,
    dirs: Seq<Seq<char>>,
    files: FileIndex,
) -> Seq<Seq<char>>
    decreases names.len(),
{
    if names.len() == 0 {
        Seq::empty()
    } else {
        let rest = named_objfiles(names.drop_last(), dirs, files);
        match named_objfile(names.last(), dirs, files) {
            Some(path) => rest.push(path),
            None => rest,
        }
    }
}

/// The paths below the directories at which `name` may stand, in the order of
/// the directories.
pub open spec fn joined(dirs: Seq<Seq<char>>, name: Seq<char>) -> Seq<Seq<char>> {
    dirs.map_values(|d: Seq<char>| join(d, name))
}

/// The paths that a lookup of one name may ask about: the name itself where
/// it is an absolute path, and the name below each directory.
pub open spec fn probes_of(name: Seq<char>, dirs: Seq<Seq<char>>) -> Seq<Seq<char>> {
    if is_absolute(name) {
        seq![name] + joined(dirs, name)
    } else {
        joined(dirs, name)
    }
}

/// The paths that a lookup of the names may ask about, name by name.
pub open spec fn probes(names: Seq<Seq<char>>, dirs: Seq<Seq<char>>) -> Seq<Seq<char>>
    decreases names.len(),
{
    if names.len() == 0 {
        Seq::empty()
    } else {
        probes(names.drop_last(), dirs) + probes_of(names.last(), dirs)
    }
}

/// Two indexes say the same of every path in `paths`.
pub open spec fn agree_on(a: FileIndex, b: FileIndex, paths: Seq<Seq<char>>) -> bool {
    forall|i: int|
        0 <= i < paths.len() ==> a.spec_is_file(#[trigger] paths[i]) == b.spec_is_file(paths[i])
            && a.spec_is_present(paths[i]) == b.spec_is_present(paths[i])
}

/// A first match depends only on what the index says of the name below each
/// directory.
pub proof fn lemma_first_match_reads_joined(
    dirs: Seq<Seq<char>>,
    name: Seq<char>,
    a: FileIndex,
    b: FileIndex,
)
    requires
        agree_on(a, b, joined(dirs, name)),
    ensures
        first_match(dirs, name, a) == first_match(dirs, name, b),
    decreases dirs.len(),
{
    if dirs.len() > 0 {
        let all = joined(dirs, name);
        assert(all[0] == join(dirs[0], name));
        let rest = dirs.skip(1);
        assert forall|i: int| 0 <= i < joined(rest, name).len() implies a.spec_is_file(
            #[trigger] joined(rest, name)[i],
        ) == b.spec_is_file(joined(rest, name)[i]) && a.spec_is_present(joined(rest, name)[i])
            == b.spec_is_present(joined(rest, name)[i]) by {
            assert(joined(rest, name)[i] == all[i + 1]);
        }
        lemma_first_match_reads_joined(rest, name, a, b);
    }
}

/// A lookup of names depends only on what the index says of the paths in
/// `probes`: two indexes that agree on them give the same object files.
pub proof fn lemma_probes_suffice(
    names: Seq<Seq<char>>,
    dirs: Seq<Seq<char>>,
    a: FileIndex,
    b: FileIndex,
)
    requires
        agree_on(a, b, probes(names, dirs)),
    ensures
        named_objfiles(names, dirs, a) == named_objfiles(names, dirs, b),
    decreases names.len(),
{
    if names.len() > 0 {
        let front = names.drop_last();
        let last = names.last();
        let all = probes(names, dirs);
        let before = probes(front, dirs);
        let below = joined(dirs, last);
        assert forall|i: int| 0 <= i < before.len() implies a.spec_is_file(#[trigger] before[i])
            == b.spec_is_file(before[i]) && a.spec_is_present(before[i]) == b.spec_is_present(
            before[i],
        ) by {
            assert(all[i] == before[i]);
        }
        lemma_probes_suffice(front, dirs, a, b);
        let own = probes_of(last, dirs);
        let lead: int = if is_absolute(last) {
            1
        } else {
            0
        };
        if is_absolute(last) {
            assert(own[0] == last);
            assert(all[before.len() as int] == own[0]);
        }
        assert forall|i: int| 0 <= i < below.len() implies a.spec_is_file(#[trigger] below[i])
            == b.spec_is_file(below[i]) && a.spec_is_present(below[i]) == b.spec_is_present(
            below[i],
        ) by {
            assert(own[lead + i] == below[i]);
            assert(all[before.len() + lead + i] == own[lead + i]);
        }
        lemma_first_match_reads_joined(dirs, last, a, b);
    }
}

/// Two paths of one stem have priorities of different lengths. The order within
/// a group is that of the names as texts, which is the order of the priorities
/// as numbers only where they are equally long.
pub open spec fn widths_differ(paths: Seq<Seq<char>>) -> bool {
    exists|i: int, j: int|
        0 <= i < paths.len() && 0 <= j < paths.len() && #[trigger] stem_of(paths[i])
            == #[trigger] stem_of(paths[j]) && priority_len(file_name(paths[i])) != priority_len(
            file_name(paths[j]),
        )
}

/// The stems of the paths.
pub open spec fn stems_of(paths: Seq<Seq<char>>) -> Seq<Seq<char>> {
    paths.map_values(|p: Seq<char>| stem_of(p))
}

/// The sort keys of the paths.
pub open spec fn sort_keys_of(paths: Seq<Seq<char>>) -> Seq<Seq<char>> {
    paths.map_values(|p: Seq<char>| sort_key_of(p))
}

/// The paths that stand at the places which the groups hold.
pub open spec fn arranged(paths: Seq<Seq<char>>, groups: Seq<Seq<usize>>) -> Seq<Seq<Seq<char>>> {
    groups.map_values(|g: Seq<usize>| g.map_values(|i: usize| paths[i as int]))
}

/// A name that is no absolute path is looked up in the directories, whether
/// or not something exists at the name as it stands.
pub proof fn lemma_relative_names_are_looked_up(
    name: Seq<char>,
    dirs: Seq<Seq<char>>,
    files: FileIndex,
)
    requires
        !is_absolute(name),
        ends_with(name, object_suffix()),
    ensures
        named_objfile(name, dirs, files) == first_match(dirs, name, files),
        dirs.len() == 0 ==> named_objfile(name, dirs, files) is None,
{
}

/// The directory that is consulted first decides: where it holds the file,
/// its copy is the match, whatever the later directories hold.
pub proof fn lemma_first_directory_wins(dirs: Seq<Seq<char>>, name: Seq<char>, files: FileIndex)
    requires
        dirs.len() > 0,
        files.spec_is_file(join(dirs[0], name)),
    ensures
        first_match(dirs, name, files) == Some(join(dirs[0], name)),
{
}

/// The match is the copy in the first directory that holds the file, and
/// there is none exactly when no directory holds it.
pub proof fn lemma_first_match(dirs: Seq<Seq<char>>, name: Seq<char>, files: FileIndex)
    ensures
        match first_match(dirs, name, files) {
            Some(path) => exists|i: int|
                0 <= i < dirs.len() && path == join(#[trigger] dirs[i], name) && files.spec_is_file(
                    path,
                ) && forall|k: int| 0 <= k < i ==> !files.spec_is_file(join(#[trigger] dirs[k], name)),
            None => forall|i: int|
                0 <= i < dirs.len() ==> !files.spec_is_file(join(#[trigger] dirs[i], name)),
        },
    decreases dirs.len(),
{
    if dirs.len() > 0 {
        if files.spec_is_file(join(dirs[0], name)) {
            assert(join(dirs[0], name) == join(dirs[0], name));
        } else {
            let rest = dirs.skip(1);
            lemma_first_match(rest, name, files);
            match first_match(rest, name, files) {
                Some(path) => {
                    let i = choose|i: int|
                        0 <= i < rest.len() && path == join(#[trigger] rest[i], name)
                            && files.spec_is_file(path) && forall|k: int|
                            0 <= k < i ==> !files.spec_is_file(join(#[trigger] rest[k], name));
                    assert(rest[i] == dirs[i + 1]);
                    assert forall|k: int| 0 <= k < i + 1 implies !files.spec_is_file(
                        join(#[trigger] dirs[k], name),
                    ) by {
                        if k > 0 {
                            assert(rest[k - 1] == dirs[k]);
                        }
                    }
                    assert(path == join(dirs[i + 1], name));
                },
                None => {
                    assert forall|i: int| 0 <= i < dirs.len() implies !files.spec_is_file(
                        join(#[trigger] dirs[i], name),
                    ) by {
                        if i > 0 {
                            assert(rest[i - 1] == dirs[i]);
                        }
                    }
                },
            }
        }
    }
}

/// The fallback groups do not depend on the order in which the paths are
/// handed in, as long as paths of one stem with equal sort keys are the same
/// path: where `q` holds the paths of `p` in another order, the groups of `q`
/// are those of `p`. (Among different paths with equal keys the one that was
/// handed in first is tried first.)
pub proof fn lemma_input_order_is_immaterial(
    p: Seq<Seq<char>>,
    q: Seq<Seq<char>>,
    perm: Seq<int>,
    gp: Seq<Seq<usize>>,
    gq: Seq<Seq<usize>>,
)
    requires
        q.len() == p.len(),
        p.len() <= usize::MAX,
        is_renumbering(perm, p.len()),
        forall|i: int| 0 <= i < p.len() ==> #[trigger] q[i] == p[perm[i]],
        ties_are_twins(stems_of(p), sort_keys_of(p), p),
        is_plan(stems_of(p), sort_keys_of(p), gp),
        is_plan(stems_of(q), sort_keys_of(q), gq),
    ensures
        arranged(q, gq) == arranged(p, gp),
{
    let stems = stems_of(p);
    let keys = sort_keys_of(p);
    lemma_plan_is_loose(stems, keys, gp);
    lemma_plan_is_loose(stems_of(q), sort_keys_of(q), gq);
    lemma_renumbered_plan(stems, keys, stems_of(q), sort_keys_of(q), perm, gq);
    let h = renumbered(gq, perm);
    lemma_loose_plans_share_stems(stems, keys, gp, h);
    let left = arranged(q, gq);
    let right = arranged(p, gp);
    assert forall|a: int| 0 <= a < left.len() implies left[a] == right[a] by {
        let stem = stem_of_group(stems, gp[a]);
        assert(is_loose_group(stems, keys, stem, gp[a]));
        assert(is_loose_group(stems, keys, stem, h[a]));
        assert(is_row(stems, keys, stem, gp[a]));
        assert(is_row(stems, keys, stem, h[a]));
        assert forall|i: usize| gp[a].contains(i) <==> h[a].contains(i) by {
            if gp[a].contains(i) {
                let k = choose|k: int| 0 <= k < gp[a].len() && gp[a][k] == i;
                assert(stems[gp[a][k] as int] == stem);
            }
            if h[a].contains(i) {
                let k = choose|k: int| 0 <= k < h[a].len() && h[a][k] == i;
                assert(stems[h[a][k] as int] == stem);
            }
        }
        lemma_rows_show_the_same(stems, keys, p, stem, gp[a], h[a]);
        assert(is_loose_group(
            stems_of(q),
            sort_keys_of(q),
            stem_of_group(stems_of(q), gq[a]),
            gq[a],
        ));
        assert forall|k: int| 0 <= k < left[a].len() implies left[a][k] == right[a][k] by {
            let x = gq[a][k] as int;
            assert(x < q.len());
            assert(q[x] == p[perm[x]]);
            assert(h[a][k] == perm[x] as usize);
            assert(p[gp[a][k] as int] == p[h[a][k] as int]);
        }
        assert(left[a] =~= right[a]);
    }
    assert(left =~= right);
}

impl HidUdev {
    /// Finds the file name in the directories: the path of the first
    /// directory, in the given order, that holds it as a regular file.
    pub fn find_first_matching_file(dirs: &[String], filename: &str, files: &FileIndex) -> (r:
        Option<String>)
        ensures
            match r {
                Some(path) => first_match(views(dirs@), filename@, *files) == Some(path@),
                None => first_match(views(dirs@), filename@, *files) is None,
            },
    {
        let name = chars_of(filename);
        let ghost all = views(dirs@);
        let mut i: usize = 0;
        proof {
            assert(all.skip(0) =~= all);
        }
        while i < dirs.len()
            invariant
                i <= dirs.len(),
                all == views(dirs@),
                name@ == filename@,
                first_match(all, filename@, *files) == first_match(
                    all.skip(i as int),
                    filename@,
                    *files,
                ),
            decreases dirs.len() - i,
        {
            let dir = chars_of(dirs[i].as_str());
            let path = join_path(&dir, &name);
            proof {
                let rest = all.skip(i as int);
                assert(rest[0] == all[i as int]);
                assert(rest.skip(1) =~= all.skip(i + 1));
            }
            if files.is_file(&path) {
                return Some(string_of(&path));
            }
            i = i + 1;
        }
        None
    }

    /// For each requested name that ends in `.bpf.o`, the object file that it
    /// stands for: the name itself where it is an absolute path at which
    /// something exists, else its first match in the directories. Names that
    /// stand for nothing are left out.
    pub fn find_named_objfiles(filenames: &[String], bpf_dirs: &[String], files: &FileIndex) -> (r:
        Vec<String>)
        ensures
            views(r@) == named_objfiles(views(filenames@), views(bpf_dirs@), *files),
    {
        let ghost names = views(filenames@);
        let ghost dirs = views(bpf_dirs@);
        let mut out: Vec<String> = Vec::new();
        let mut i: usize = 0;
        while i < filenames.len()
            invariant
                i <= filenames.len(),
                names == views(filenames@),
                dirs == views(bpf_dirs@),
                views(out@) == named_objfiles(names.take(i as int), dirs, *files),
            decreases filenames.len() - i,
        {
            let name = chars_of(filenames[i].as_str());
            let ghost before = views(out@);
            proof {
                let upto = names.take(i + 1);
                assert(upto.drop_last() =~= names.take(i as int));
                assert(upto.last() == names[i as int]);
            }
            if is_object_name(&name) {
                if name.len() > 0 && name[0] == '/' && files.is_present(&name) {
                    out.push(filenames[i].clone());
                    proof {
                        assert(views(out@) =~= before.push(names[i as int]));
                    }
                } else {
                    match Self::find_first_matching_file(bpf_dirs, filenames[i].as_str(), files) {
                        Some(path) => {
                            let ghost found = path@;
                            out.push(path);
                            proof {
                                assert(views(out@) =~= before.push(found));
                            }
                        },
                        None => {},
                    }
                }
            }
            i = i + 1;
        }
        proof {
            assert(names.take(filenames.len() as int) =~= names);
        }
        out
    }

    /// The object files that the properties of the device ask for: the values
    /// of its `HID_BPF_` properties, resolved as requested names.
    pub fn search_for_matching_objfiles(&self, bpf_dirs: &[String], files: &FileIndex) -> (r: Vec<
        String,
    >)
        ensures
            views(r@) == named_objfiles(hints(self@.properties), views(bpf_dirs@), *files),
    {
        let wanted = self.hid_bpf_properties();
        Self::find_named_objfiles(wanted.as_slice(), bpf_dirs, files)
    }

    /// The paths that a lookup of the names in the directories may ask about:
    /// each name below each directory, and the name itself where it is an
    /// absolute path. What exists at them is all that an index has to tell.
    pub fn paths_to_probe(filenames: &[String], bpf_dirs: &[String]) -> (r: Vec<String>)
        ensures
            views(r@) == probes(views(filenames@), views(bpf_dirs@)),
    {
        let ghost names = views(filenames@);
        let ghost dirs = views(bpf_dirs@);
        let mut out: Vec<String> = Vec::new();
        let mut i: usize = 0;
        proof {
            assert(names.take(0) =~= Seq::<Seq<char>>::empty());
            assert(views(out@) =~= probes(names.take(0), dirs));
        }
        while i < filenames.len()
            invariant
                i <= filenames.len(),
                names == views(filenames@),
                dirs == views(bpf_dirs@),
                views(out@) == probes(names.take(i as int), dirs),
            decreases filenames.len() - i,
        {
            let name = chars_of(filenames[i].as_str());
            let ghost before = views(out@);
            if name.len() > 0 && name[0] == '/' {
                out.push(filenames[i].clone());
                proof {
                    assert(views(out@) =~= before + seq![names[i as int]]);
                }
            }
            let ghost head = views(out@);
            let mut d: usize = 0;
            while d < bpf_dirs.len()
                invariant
                    d <= bpf_dirs.len(),
                    i < filenames.len(),
                    names == views(filenames@),
                    dirs == views(bpf_dirs@),
                    name@ == names[i as int],
                    views(out@) == head + joined(dirs, names[i as int]).take(d as int),
                decreases bpf_dirs.len() - d,
            {
                let dir = chars_of(bpf_dirs[d].as_str());
                let ghost sofar = views(out@);
                let path = join_path(&dir, &name);
                out.push(string_of(&path));
                proof {
                    assert(views(out@) =~= sofar.push(join(dirs[d as int], names[i as int])));
                    assert(views(out@) =~= head + joined(dirs, names[i as int]).take(d + 1));
                }
                d = d + 1;
            }
            proof {
                let below = joined(dirs, names[i as int]);
                assert(below.take(bpf_dirs.len() as int) =~= below);
                assert(views(out@) =~= before + probes_of(names[i as int], dirs));
                let upto = names.take(i + 1);
                assert(upto.drop_last() =~= names.take(i as int));
                assert(upto.last() == names[i as int]);
            }
            i = i + 1;
        }
        proof {
            assert(names.take(filenames.len() as int) =~= names);
        }
        out
    }

    /// The object files to load for the device. Where object files are asked
    /// for by name, they are looked up, whatever the properties of the device
    /// say. Where none is, the properties of the device decide, and a device
    /// with the property `HID_BPF_IGNORE_DEVICE` gets none.
    pub fn objfiles_to_load(&self, objfiles: &[String], bpf_dirs: &[String], files: &FileIndex) -> (r:
        Vec<String>)
        ensures
            views(r@) == (if objfiles@.len() > 0 {
                named_objfiles(views(objfiles@), views(bpf_dirs@), *files)
            } else if property_value(self@.properties, "HID_BPF_IGNORE_DEVICE"@) is Some {
                Seq::empty()
            } else {
                named_objfiles(hints(self@.properties), views(bpf_dirs@), *files)
            }),
    {
        if objfiles.len() > 0 {
            Self::find_named_objfiles(objfiles, bpf_dirs, files)
        } else if self.is_ignored() {
            let out: Vec<String> = Vec::new();
            proof {
                assert(views(out@) =~= Seq::<Seq<char>>::empty());
            }
            out
        } else {
            self.search_for_matching_objfiles(bpf_dirs, files)
        }
    }

    /// Orders paths with names like `0010-foo.bpf.o` and `0020-bar.bpf.o` into
    /// fallback groups: one group for each stem, the groups in the dictionary
    /// order of their stems, and within a group the greater name first:
    /// `[[0020-bar.bpf.o, 0010-bar.bpf.o], [0010-foo.bpf.o]]`.
    pub fn sort_by_stem(paths: &[String]) -> (r: Vec<Vec<String>>)
        ensures
            exists|groups: Seq<Seq<usize>>|
                is_plan(stems_of(views(paths@)), sort_keys_of(views(paths@)), groups)
                    && path_rows(r@) == #[trigger] arranged(views(paths@), groups),
    {
        let ghost all = views(paths@);
        let mut stems: Vec<Vec<char>> = Vec::new();
        let mut keys: Vec<Vec<char>> = Vec::new();
        let mut i: usize = 0;
        while i < paths.len()
            invariant
                i <= paths.len(),
                all == views(paths@),
                stems.len() == i,
                keys.len() == i,
                forall|k: int| 0 <= k < i ==> (#[trigger] stems@[k])@ == stem_of(all[k]),
                forall|k: int| 0 <= k < i ==> (#[trigger] keys@[k])@ == sort_key_of(all[k]),
            decreases paths.len() - i,
        {
            let path = chars_of(paths[i].as_str());
            let name = file_name_of(&path);
            let tail = after_dash_of(&name);
            stems.push(lowercase_of(&tail));
            keys.push(lowercase_of(&name));
            i = i + 1;
        }
        proof {
            assert(texts(stems@) =~= stems_of(all));
            assert(texts(keys@) =~= sort_keys_of(all));
        }
        let groups = group_by_keys(&stems, &keys);
        let ghost plan = rows(groups@);
        let mut out: Vec<Vec<String>> = Vec::new();
        let mut g: usize = 0;
        while g < groups.len()
            invariant
                g <= groups.len(),
                all == views(paths@),
                plan == rows(groups@),
                is_plan(stems_of(all), sort_keys_of(all), plan),
                stems_of(all).len() == paths.len(),
                out.len() == g,
                forall|a: int| 0 <= a < g ==> (#[trigger] out@[a])@.map_values(|p: String| p@) == plan[a].map_values(|i: usize| all[i as int]),
            decreases groups.len() - g,
        {
            let mut row: Vec<String> = Vec::new();
            let mut k: usize = 0;
            let ghost places = plan[g as int];
            proof {
                assert(is_group(
                    stems_of(all),
                    sort_keys_of(all),
                    stem_of_group(stems_of(all), places),
                    places,
                ));
            }
            while k < groups[g].len()
                invariant
                    g < groups.len(),
                    k <= groups[g as int].len(),
                    all == views(paths@),
                    places == groups@[g as int]@,
                    forall|m: int| 0 <= m < places.len() ==> (#[trigger] places[m]) < paths.len(),
                    row.len() == k,
                    forall|m: int| 0 <= m < k ==> (#[trigger] row@[m])@ == all[places[m] as int],
                decreases groups[g as int].len() - k,
            {
                let at = groups[g][k];
                row.push(paths[at].clone());
                k = k + 1;
            }
            proof {
                assert(row@.map_values(|p: String| p@) =~= places.map_values(
                    |i: usize| all[i as int],
                ));
            }
            out.push(row);
            g = g + 1;
        }
        proof {
            assert(path_rows(out@) =~= arranged(all, plan));
        }
        out
    }

    /// Tells whether two of the paths have the same stem and priorities of
    /// different lengths, such as `20-foo.bpf.o` and `100-foo.bpf.o`: the first
    /// of these is tried first, though its priority is the smaller number.
    pub fn prefix_widths_differ(paths: &[String]) -> (r: bool)
        ensures
            r == widths_differ(views(paths@)),
    {
        let ghost all = views(paths@);
        let mut stems: Vec<Vec<char>> = Vec::new();
        let mut widths: Vec<usize> = Vec::new();
        let mut i: usize = 0;
        while i < paths.len()
            invariant
                i <= paths.len(),
                all == views(paths@),
                stems.len() == i,
                widths.len() == i,
                forall|k: int| 0 <= k < i ==> (#[trigger] stems@[k])@ == stem_of(all[k]),
                forall|k: int|
                    0 <= k < i ==> (#[trigger] widths@[k]) == priority_len(file_name(all[k])),
            decreases paths.len() - i,
        {
            let path = chars_of(paths[i].as_str());
            let name = file_name_of(&path);
            let tail = after_dash_of(&name);
            let at = find_char(&name, '-');
            stems.push(lowercase_of(&tail));
            widths.push(
                if at < name.len() {
                    at
                } else {
                    0
                },
            );
            i = i + 1;
        }
        let mut a: usize = 0;
        while a < paths.len()
            invariant
                a <= paths.len(),
                all == views(paths@),
                stems.len() == paths.len(),
                widths.len() == paths.len(),
                forall|k: int| 0 <= k < paths.len() ==> (#[trigger] stems@[k])@ == stem_of(all[k]),
                forall|k: int|
                    0 <= k < paths.len() ==> (#[trigger] widths@[k]) == priority_len(
                        file_name(all[k]),
                    ),
                forall|x: int, y: int|
                    0 <= x < a && 0 <= y < paths.len() && #[trigger] stem_of(all[x])
                        == #[trigger] stem_of(all[y]) ==> priority_len(file_name(all[x]))
                        == priority_len(file_name(all[y])),
            decreases paths.len() - a,
        {
            let mut b: usize = 0;
            while b < paths.len()
                invariant
                    a < paths.len(),
                    b <= paths.len(),
                    all == views(paths@),
                    stems.len() == paths.len(),
                    widths.len() == paths.len(),
                    forall|k: int|
                        0 <= k < paths.len() ==> (#[trigger] stems@[k])@ == stem_of(all[k]),
                    forall|k: int|
                        0 <= k < paths.len() ==> (#[trigger] widths@[k]) == priority_len(
                            file_name(all[k]),
                        ),
                    forall|y: int|
                        0 <= y < b && stem_of(all[a as int]) == #[trigger] stem_of(all[y])
                            ==> priority_len(file_name(all[a as int])) == priority_len(
                            file_name(all[y]),
                        ),
                decreases paths.len() - b,
            {
                if same_text(&stems[a], &stems[b]) && widths[a] != widths[b] {
                    proof {
                        assert(stem_of(all[a as int]) == stem_of(all[b as int]));
                    }
                    return true;
                }
                b = b + 1;
            }
            a = a + 1;
        }
        false
    }

    /// The walk through the fallback groups of the given object files: for
    /// each group its object files are tried in order, the first that loads
    /// ends the group, and the next group follows whether one loaded or not.
    pub fn load_bpf_files(&self, paths: &[String]) -> (r: LoadPlan)
        ensures
            exists|groups: Seq<Seq<usize>>|
                is_plan(stems_of(views(paths@)), sort_keys_of(views(paths@)), groups)
                    && r@.groups == #[trigger] arranged(views(paths@), groups),
            r@.group == 0 || r@.groups.len() == 0,
            r@.member == 0,
    {
        let sorted = Self::sort_by_stem(paths);
        LoadPlan::new(sorted)
    }
}

} // verus!
