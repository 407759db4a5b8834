//! Paths as texts: the name at the end of a path, a name below a directory,
//! the suffix of object files, and which paths exist.

use crate::order::same_text;
use crate::text::{chars_of, find_char, position_of, string_of};
use vstd::prelude::*;

verus! {

/// The lower-case form of a text, as Unicode defines it.
pub uninterp spec fn lowercase(s: Seq<char>) -> Seq<char>;

/// `str::to_lowercase` of std gives the lower-case form of the text. It goes by
/// the Unicode tables alone, so the same text always gives the same result.
pub assume_specification[ str::to_lowercase ](s: &str) -> (r: String)
    ensures
        r@ == lowercase(s@),
;

/// The suffix of a compiled object file.
pub open spec fn object_suffix() -> Seq<char> {
    seq!['.', 'b', 'p', 'f', '.', 'o']
}

/// `s` ends with `suffix`.
pub open spec fn ends_with(s: Seq<char>, suffix: Seq<char>) -> bool {
    s.len() >= suffix.len() && s.skip(s.len() - suffix.len()) == suffix
}

/// `s` starts with `prefix`.
pub open spec fn starts_with(s: Seq<char>, prefix: Seq<char>) -> bool {
    s.len() >= prefix.len() && s.take(prefix.len() as int) == prefix
}

/// Where the name at the end of a path starts: behind its last `/`.
pub open spec fn name_start(path: Seq<char>) -> int
    decreases path.len(),
{
    if path.len() == 0 {
        0
    } else if path.last() == '/' {
        path.len() as int
    } else {
        name_start(path.drop_last())
    }
}

/// The length of a path without what does not count at its end: a `/`, and a
/// `.` behind a `/`.
pub open spec fn trimmed_len(path: Seq<char>) -> int
    decreases path.len(),
{
    if path.len() > 0 && path.last() == '/' {
        trimmed_len(path.drop_last())
    } else if path.len() >= 2 && path.last() == '.' && path[path.len() - 2] == '/' {
        trimmed_len(path.take(path.len() - 2))
    } else {
        path.len() as int
    }
}

/// The name at the end of a path: its last component. A `/` at the end of the
/// path does not count, nor a `.` behind a `/`; of what is left, the name is
/// what stands behind the last `/`, and all of it where it has none.
pub open spec fn file_name(path: Seq<char>) -> Seq<char> {
    let trimmed = path.take(trimmed_len(path));
    trimmed.skip(name_start(trimmed))
}

/// What stands behind the first `-` of a name, and all of the name where it has
/// none.
pub open spec fn after_dash(name: Seq<char>) -> Seq<char> {
    let at = position_of(name, '-');
    if at < name.len() {
        name.skip(at + 1)
    } else {
        name
    }
}

/// How long the priority of a name is: what stands before its first `-`; a
/// name without `-` has none.
pub open spec fn priority_len(name: Seq<char>) -> int {
    let at = position_of(name, '-');
    if at < name.len() {
        at
    } else {
        0
    }
}

/// The stem of a path: the name at its end without the priority before its
/// first `-`, in lower case.
pub open spec fn stem_of(path: Seq<char>) -> Seq<char> {
    lowercase(after_dash(file_name(path)))
}

/// The key by which the paths of one stem are ordered: the name at the end of
/// the path, in lower case.
pub open spec fn sort_key_of(path: Seq<char>) -> Seq<char> {
    lowercase(file_name(path))
}

/// The path is absolute: it starts with `/`.
pub open spec fn is_absolute(path: Seq<char>) -> bool {
    path.len() > 0 && path[0] == '/'
}

/// The path of `name` below `dir`. An absolute `name` stands for itself, and
/// an empty `dir` adds nothing.
pub open spec fn join(dir: Seq<char>, name: Seq<char>) -> Seq<char> {
    if is_absolute(name) {
        name
    } else if dir.len() == 0 || dir.last() == '/' {
        dir + name
    } else {
        dir + seq!['/'] + name
    }
}

/// The place behind the last `/` is the start of the name.
pub proof fn lemma_name_start_is(path: Seq<char>, at: int)
    requires
        0 <= at <= path.len(),
        forall|k: int| at <= k < path.len() ==> path[k] != '/',
        at > 0 ==> path[at - 1] == '/',
    ensures
        name_start(path) == at,
    decreases path.len(),
{
    if path.len() > 0 && path.last() != '/' {
        let front = path.drop_last();
        assert(at < path.len()) by {
            if at == path.len() {
                assert(path[at - 1] == '/');
            }
        }
        assert forall|k: int| at <= k < front.len() implies front[k] != '/' by {
            assert(front[k] == path[k]);
        }
        if at > 0 {
            assert(front[at - 1] == path[at - 1]);
        }
        lemma_name_start_is(front, at);
    } else if path.len() > 0 {
        if at < path.len() {
            assert(path[path.len() - 1] != '/');
        }
    }
}

/// The name at the end of a path.
pub fn file_name_of(path: &Vec<char>) -> (r: Vec<char>)
    ensures
        r@ == file_name(path@),
{
    let mut end: usize = path.len();
    proof {
        assert(path@.take(end as int) =~= path@);
    }
    loop
        invariant
            end <= path.len(),
            trimmed_len(path@) == trimmed_len(path@.take(end as int)),
        ensures
            !(end > 0 && path@[end - 1] == '/'),
            !(end >= 2 && path@[end - 1] == '.' && path@[end - 2] == '/'),
        decreases end,
    {
        let ghost now = path@.take(end as int);
        if end > 0 && path[end - 1] == '/' {
            proof {
                assert(now.drop_last() =~= path@.take(end - 1));
            }
            end = end - 1;
        } else if end >= 2 && path[end - 1] == '.' && path[end - 2] == '/' {
            proof {
                assert(now.take(now.len() - 2) =~= path@.take(end - 2));
            }
            end = end - 2;
        } else {
            break ;
        }
    }
    proof {
        let now = path@.take(end as int);
        if end > 0 {
            assert(now.last() == path@[end - 1]);
        }
        if end >= 2 {
            assert(now[now.len() - 2] == path@[end - 2]);
        }
        assert(trimmed_len(now) == end);
    }
    let ghost trimmed = path@.take(end as int);
    let mut at: usize = end;
    while at > 0 && path[at - 1] != '/'
        invariant
            at <= end <= path.len(),
            trimmed == path@.take(end as int),
            forall|k: int| at <= k < end ==> trimmed[k] != '/',
        decreases at,
    {
        at = at - 1;
    }
    proof {
        if at > 0 {
            assert(trimmed[at - 1] == path@[at - 1]);
        }
        lemma_name_start_is(trimmed, at as int);
    }
    let mut out: Vec<char> = Vec::new();
    let mut i: usize = at;
    while i < end
        invariant
            at <= i <= end <= path.len(),
            out@ == path@.subrange(at as int, i as int),
        decreases end - i,
    {
        out.push(path[i]);
        i = i + 1;
        proof {
            assert(out@ =~= path@.subrange(at as int, i as int));
        }
    }
    proof {
        assert(path@.subrange(at as int, end as int) =~= trimmed.skip(at as int));
    }
    out
}

/// The characters of `chars` from `from` on.
pub fn copy_from(chars: &Vec<char>, from: usize) -> (r: Vec<char>)
    requires
        from <= chars.len(),
    ensures
        r@ == chars@.skip(from as int),
{
    let mut out: Vec<char> = Vec::new();
    let mut i: usize = from;
    while i < chars.len()
        invariant
            from <= i <= chars.len(),
            out@ == chars@.subrange(from as int, i as int),
        decreases chars.len() - i,
    {
        out.push(chars[i]);
        i = i + 1;
        proof {
            assert(out@ =~= chars@.subrange(from as int, i as int));
        }
    }
    proof {
        assert(chars@.subrange(from as int, chars.len() as int) =~= chars@.skip(from as int));
    }
    out
}

/// What stands behind the first `-` of a name.
pub fn after_dash_of(name: &Vec<char>) -> (r: Vec<char>)
    ensures
        r@ == after_dash(name@),
{
    let at = find_char(name, '-');
    if at < name.len() {
        copy_from(name, at + 1)
    } else {
        let r = copy_from(name, 0);
        proof {
            assert(name@.skip(0) =~= name@);
        }
        r
    }
}

/// The lower-case form of the characters.
pub fn lowercase_of(chars: &Vec<char>) -> (r: Vec<char>)
    ensures
        r@ == lowercase(chars@),
{
    let s = string_of(chars);
    let low = s.as_str().to_lowercase();
    chars_of(low.as_str())
}

/// Tells whether the characters end with the suffix of object files.
pub fn is_object_name(chars: &Vec<char>) -> (r: bool)
    ensures
        r == ends_with(chars@, object_suffix()),
{
    let n = chars.len();
    if n < 6 {
        return false;
    }
    let r = chars[n - 6] == '.' && chars[n - 5] == 'b' && chars[n - 4] == 'p' && chars[n - 3]
        == 'f' && chars[n - 2] == '.' && chars[n - 1] == 'o';
    proof {
        let tail = chars@.skip(n - 6);
        let suffix = object_suffix();
        if r {
            assert(tail =~= suffix);
        } else {
            assert(tail[0] == chars@[n - 6] && tail[1] == chars@[n - 5] && tail[2] == chars@[n
                - 4] && tail[3] == chars@[n - 3] && tail[4] == chars@[n - 2] && tail[5]
                == chars@[n - 1]);
            assert(suffix[0] == '.' && suffix[1] == 'b' && suffix[2] == 'p' && suffix[3] == 'f'
                && suffix[4] == '.' && suffix[5] == 'o');
        }
    }
    r
}

/// The path of `name` below `dir`.
pub fn join_path(dir: &Vec<char>, name: &Vec<char>) -> (r: Vec<char>)
    ensures
        r@ == join(dir@, name@),
{
    let mut out: Vec<char> = Vec::new();
    let absolute = name.len() > 0 && name[0] == '/';
    if !absolute {
        let mut i: usize = 0;
        while i < dir.len()
            invariant
                i <= dir.len(),
                out@ == dir@.take(i as int),
            decreases dir.len() - i,
        {
            out.push(dir[i]);
            i = i + 1;
            proof {
                assert(out@ =~= dir@.take(i as int));
            }
        }
        proof {
            assert(dir@.take(dir.len() as int) =~= dir@);
        }
        if dir.len() > 0 && dir[dir.len() - 1] != '/' {
            out.push('/');
        }
    }
    let ghost head = out@;
    let mut k: usize = 0;
    while k < name.len()
        invariant
            k <= name.len(),
            out@ == head + name@.take(k as int),
        decreases name.len() - k,
    {
        out.push(name[k]);
        k = k + 1;
        proof {
            assert(out@ =~= head + name@.take(k as int));
        }
    }
    proof {
        assert(name@.take(name.len() as int) =~= name@);
        assert(out@ =~= join(dir@, name@));
    }
    out
}

/// The paths that are known to exist: regular files, and anything else.
#[derive(Debug, Clone)]
pub struct FileIndex {
    /// Paths of regular files.
    pub files: Vec<String>,
    /// Paths that exist and are no regular files, such as directories.
    pub others: Vec<String>,
}

/// One of the strings holds the text.
pub open spec fn holds(list: Seq<String>, path: Seq<char>) -> bool {
    exists|i: int| 0 <= i < list.len() && (#[trigger] list[i])@ == path
}

/// Tells whether one of the strings holds the text.
pub fn list_holds(list: &Vec<String>, path: &Vec<char>) -> (r: bool)
    ensures
        r == holds(list@, path@),
{
    let mut i: usize = 0;
    while i < list.len()
        invariant
            i <= list.len(),
            forall|k: int| 0 <= k < i ==> (#[trigger] list@[k])@ != path@,
        decreases list.len() - i,
    {
        let entry = chars_of(list[i].as_str());
        if same_text(&entry, path) {
            return true;
        }
        i = i + 1;
    }
    false
}

impl FileIndex {
    /// The path is that of a regular file.
    pub open spec fn spec_is_file(&self, path: Seq<char>) -> bool {
        holds(self.files@, path)
    }

    /// Something exists at the path.
    pub open spec fn spec_is_present(&self, path: Seq<char>) -> bool {
        holds(self.files@, path) || holds(self.others@, path)
    }

    /// An index of nothing.
    pub fn new() -> (r: FileIndex)
        ensures
            r.files@.len() == 0,
            r.others@.len() == 0,
    {
        FileIndex { files: Vec::new(), others: Vec::new() }
    }

    /// Tells whether the path is that of a regular file.
    pub fn is_file(&self, path: &Vec<char>) -> (r: bool)
        ensures
            r == self.spec_is_file(path@),
    {
        list_holds(&self.files, path)
    }

    /// Tells whether something exists at the path.
    pub fn is_present(&self, path: &Vec<char>) -> (r: bool)
        ensures
            r == self.spec_is_present(path@),
    {
        list_holds(&self.files, path) || list_holds(&self.others, path)
    }
}

} // verus!
