//! The layout of the working directory and the texts that describe it.
use vstd::prelude::*;
use crate::text::{chars_of, push_char, split_on, split_str, str_eq, string_of, views};

verus! {

/// Where the application keeps its files and how paths are written on this platform.
pub struct Layout {
    /// The application's working directory (`$HOME/.droidsdk`).
    pub workdir: String,
    /// The character between directory names (`/` on Unix).
    pub dir_separator: char,
    /// The character between entries of `PATH` (`:` on Unix).
    pub path_separator: char,
}

impl Layout {
    /// Directories are separated by `/` or by `\\`.
    pub open spec fn wf(&self) -> bool {
        self.dir_separator == '/' || self.dir_separator == '\\'
    }
}

/// `base` extended by `rel`, as `Path::join` extends a path: a `rel` that starts
/// with the separator replaces `base`; otherwise a separator stands between the
/// two unless `base` is empty or already ends with one.
pub open spec fn path_join(base: Seq<char>, rel: Seq<char>, sep: char) -> Seq<char> {
    if rel.len() > 0 && rel[0] == sep {
        rel
    } else if base.len() == 0 || base.last() == sep {
        base + rel
    } else {
        base.push(sep) + rel
    }
}

/// The path of `relative` inside the working directory.
pub open spec fn workdir_subpath(layout: Layout, relative: Seq<char>) -> Seq<char> {
    path_join(layout.workdir@, relative, layout.dir_separator)
}

/// `base` extended by `rel` (see [`path_join`]).
pub fn join_path(base: &str, rel: &str, sep: char) -> (p: String)
    ensures
        p@ == path_join(base@, rel@, sep),
{
    let rc = chars_of(rel);
    if rc.len() > 0 && rc[0] == sep {
        return String::from_str(rel);
    }
    let bc = chars_of(base);
    let mut p = string_of(bc.as_slice());
    if bc.len() > 0 && bc[bc.len() - 1] != sep {
        push_char(&mut p, sep);
    }
    p.append(rel);
    p
}

/// The path of `relative_path` inside the working directory.
pub fn get_workdir_subpath(layout: &Layout, relative_path: &str) -> (p: String)
    ensures
        p@ == workdir_subpath(*layout, relative_path@),
{
    join_path(layout.workdir.as_str(), relative_path, layout.dir_separator)
}

/// The line that sets an environment variable in the script the shell sources.
pub open spec fn export_line(name: Seq<char>, value: Seq<char>) -> Seq<char> {
    "export "@ + name + "="@ + value + "\n"@
}

/// Appends to the script that the shell sources the line that sets `name` to `value`.
pub fn write_new_env_var_value(setvars: &mut String, name: &str, value: &str)
    ensures
        final(setvars)@ == old(setvars)@ + export_line(name@, value@),
{
    setvars.append("export ");
    setvars.append(name);
    setvars.append("=");
    setvars.append(value);
    setvars.append("\n");
}

/// Lines that are not empty.
pub open spec fn non_empty() -> spec_fn(Seq<char>) -> bool {
    |line: Seq<char>| line.len() > 0
}

/// The watched projects that the list file names: its non-empty lines.
pub fn watched_projects(contents: &str) -> (r: Vec<String>)
    ensures
        views(r@) == split_on(contents@, '\n').filter(non_empty()),
{
    let lines = split_str(contents, '\n');
    let mut r: Vec<String> = Vec::new();
    let mut i: usize = 0;
    while i < lines.len()
        invariant
            i <= lines@.len(),
            views(lines@) == split_on(contents@, '\n'),
            views(r@) == views(lines@).take(i as int).filter(non_empty()),
        decreases lines@.len() - i,
    {
        let ghost pre = views(lines@).take(i as int);
        let ghost r0 = r@;
        if lines[i].as_str().unicode_len() > 0 {
            r.push(lines[i].clone());
            assert(views(r@) =~= views(r0).push(lines@[i as int]@));
        }
        i = i + 1;
        proof {
            let e = lines@[i - 1]@;
            assert(views(lines@).take(i as int) =~= pre.push(e));
            pre.lemma_filter_push(e, non_empty());
        }
    }
    assert(views(lines@).take(i as int) =~= views(lines@));
    r
}

/// Pieces of a path that name a directory or file: not empty and not `.`.
pub open spec fn is_named_piece() -> spec_fn(Seq<char>) -> bool {
    |c: Seq<char>| c.len() > 0 && c != "."@
}

/// The components of a path, as `Path::components` yields them: the root (a
/// lone separator) when the path starts with a separator, or `.` when its first
/// piece is `.`; then the pieces between separators that are neither empty nor
/// `.`.
pub open spec fn path_components(p: Seq<char>, sep: char) -> Seq<Seq<char>> {
    let pieces = split_on(p, sep);
    let named = pieces.filter(is_named_piece());
    if p.len() > 0 && p[0] == sep {
        seq![seq![sep]] + named
    } else if pieces[0] == "."@ {
        seq!["."@] + named
    } else {
        named
    }
}

/// A line of the watched-projects file covers `path`: it is not empty and its
/// components begin the components of `path` (as `Path::starts_with` tests).
pub open spec fn watches(line: Seq<char>, path: Seq<char>, sep: char) -> bool {
    line.len() > 0 && path_components(line, sep).is_prefix_of(path_components(path, sep))
}

/// The components of a path (see [`path_components`]).
pub fn components_of(p: &str, sep: char) -> (r: Vec<String>)
    ensures
        views(r@) == path_components(p@, sep),
{
    let parts = split_str(p, sep);
    let cs = chars_of(p);
    let mut r: Vec<String> = Vec::new();
    proof {
        crate::text::lemma_split_nonempty(p@, sep);
        assert(views(parts@)[0] == parts@[0]@);
    }
    let rooted = cs.len() > 0 && cs[0] == sep;
    let current = !rooted && str_eq(parts[0].as_str(), ".");
    if rooted {
        let root = vec![sep];
        assert(root@ =~= seq![sep]);
        let root_text = string_of(root.as_slice());
        assert(root_text@ =~= seq![sep]);
        r.push(root_text);
        assert(views(r@) =~= seq![seq![sep]]);
    } else if current {
        r.push(String::from_str("."));
        assert(views(r@) =~= seq!["."@]);
    }
    let ghost head = views(r@);
    assert(rooted ==> head =~= seq![seq![sep]]);
    assert(current ==> head =~= seq!["."@]);
    assert(!rooted && !current ==> head =~= Seq::<Seq<char>>::empty());
    let mut i: usize = 0;
    while i < parts.len()
        invariant
            i <= parts@.len(),
            views(parts@) == split_on(p@, sep),
            views(r@) == head + views(parts@).take(i as int).filter(is_named_piece()),
        decreases parts@.len() - i,
    {
        let ghost pre = views(parts@).take(i as int);
        let ghost r0 = views(r@);
        let piece = parts[i].as_str();
        if piece.unicode_len() > 0 && !str_eq(piece, ".") {
            r.push(parts[i].clone());
            assert(views(r@) =~= r0.push(parts@[i as int]@));
        }
        i = i + 1;
        proof {
            let e = parts@[i - 1]@;
            assert(views(parts@).take(i as int) =~= pre.push(e));
            pre.lemma_filter_push(e, is_named_piece());
        }
    }
    assert(views(parts@).take(i as int) =~= views(parts@));
    r
}

/// Whether the components `a` begin the components `b`.
fn begins_with(b: &Vec<String>, a: &Vec<String>) -> (r: bool)
    ensures
        r == views(a@).is_prefix_of(views(b@)),
{
    if a.len() > b.len() {
        return false;
    }
    let mut i: usize = 0;
    while i < a.len()
        invariant
            i <= a@.len() <= b@.len(),
            forall|k: int| 0 <= k < i ==> a@[k]@ == b@[k]@,
        decreases a@.len() - i,
    {
        if !str_eq(a[i].as_str(), b[i].as_str()) {
            assert(views(a@)[i as int] != views(b@).subrange(0, a@.len() as int)[i as int]);
            return false;
        }
        i = i + 1;
    }
    assert(views(a@) =~= views(b@).subrange(0, a@.len() as int));
    true
}

/// Whether a project is already watched: some line of the watched-projects file
/// covers its path (see [`watches`]).
pub fn is_watched(lines: &Vec<String>, project_path: &str, dir_sep: char) -> (r: bool)
    ensures
        r == exists|i: int| 0 <= i < lines@.len() && watches(#[trigger] lines@[i]@, project_path@, dir_sep),
{
    let target = components_of(project_path, dir_sep);
    let mut i: usize = 0;
    while i < lines.len()
        invariant
            i <= lines@.len(),
            views(target@) == path_components(project_path@, dir_sep),
            forall|k: int| 0 <= k < i ==> !watches(#[trigger] lines@[k]@, project_path@, dir_sep),
        decreases lines@.len() - i,
    {
        let line = lines[i].as_str();
        if line.unicode_len() > 0 {
            let c = components_of(line, dir_sep);
            if begins_with(&target, &c) {
                assert(watches(lines@[i as int]@, project_path@, dir_sep));
                return true;
            }
        }
        i = i + 1;
    }
    false
}

/// What to do with a directory while looking for the one an archive really unpacked to.
#[derive(PartialEq, Eq, Structural, Clone, Copy, Debug)]
pub enum TraverseStep {
    /// Nothing in it: an error.
    Empty,
    /// A single directory and no file: look inside that directory.
    Descend,
    /// Files, or several directories: this is the one.
    Found,
}

/// Decides, from how many files and directories a directory holds, whether it is
/// the one with content, is empty, or only wraps a single directory.
pub fn traverse_step(file_count: usize, dir_count: usize) -> (r: TraverseStep)
    ensures
        r == (if file_count > 0 || dir_count > 1 {
            TraverseStep::Found
        } else if dir_count == 1 {
            TraverseStep::Descend
        } else {
            TraverseStep::Empty
        }),
{
    if file_count == 0 {
        if dir_count == 0 {
            TraverseStep::Empty
        } else if dir_count == 1 {
            TraverseStep::Descend
        } else {
            TraverseStep::Found
        }
    } else {
        TraverseStep::Found
    }
}

} // verus!
