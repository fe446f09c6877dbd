//! Which sdkit a partial name means, and how `PATH` changes when an sdkit is
//! used, reverted or cleared.
use vstd::prelude::*;
use crate::assoc::{assoc_insert, has_key, insert_entry, key_index, keys_unique, find_key};
use crate::filesystem::{join_path, path_join, workdir_subpath, Layout};
use crate::text::{
    all_free_of, join_strs, join_with, lemma_join_split, lemma_split_concat, lemma_split_free_of,
    lemma_split_free_text, lemma_split_join, lemma_split_nonempty, split_on, split_str,
    starts_with, views,
};

verus! {

broadcast use vstd::seq_lib::group_seq_properties;

/// Entries that start with `prefix`.
pub open spec fn starts_with_text(prefix: Seq<char>) -> spec_fn(Seq<char>) -> bool {
    |e: Seq<char>| prefix.is_prefix_of(e)
}

/// Entries that do not start with `prefix`.
pub open spec fn lacks_prefix(prefix: Seq<char>) -> spec_fn(Seq<char>) -> bool {
    |e: Seq<char>| !prefix.is_prefix_of(e)
}

/// The `sep`-separated list `path` without the entries that start with `prefix`.
pub open spec fn path_without(path: Seq<char>, prefix: Seq<char>, sep: char) -> Seq<char> {
    join_with(split_on(path, sep).filter(lacks_prefix(prefix)), sep)
}

/// How many entries of the `sep`-separated list `path` start with `prefix`.
pub open spec fn count_prefixed(path: Seq<char>, prefix: Seq<char>, sep: char) -> nat {
    split_on(path, sep).filter(starts_with_text(prefix)).len()
}

/// The directory that holds all installed versions of `sdkit`.
pub open spec fn sdkit_prefix(layout: Layout, sdkit: Seq<char>) -> Seq<char> {
    workdir_subpath(layout, path_join("candidates"@, sdkit, layout.dir_separator))
}

/// The directory of one installed version of `sdkit`.
pub open spec fn install_dir_of(layout: Layout, sdkit: Seq<char>, version: Seq<char>) -> Seq<
    char,
> {
    workdir_subpath(
        layout,
        path_join(
            path_join("candidates"@, sdkit, layout.dir_separator),
            version,
            layout.dir_separator,
        ),
    )
}

/// The `PATH` entry that makes a version of an sdkit available.
pub open spec fn use_entry(layout: Layout, sdkit: Seq<char>, version: Seq<char>) -> Seq<char> {
    path_join(install_dir_of(layout, sdkit, version), "bin"@, layout.dir_separator)
}

/// `PATH` after a version of an sdkit is used: the sdkit's old entries leave,
/// the new one comes first.
pub open spec fn path_after_use(
    layout: Layout,
    path: Seq<char>,
    sdkit: Seq<char>,
    version: Seq<char>,
) -> Seq<char> {
    use_entry(layout, sdkit, version).push(layout.path_separator) + path_without(
        path,
        sdkit_prefix(layout, sdkit),
        layout.path_separator,
    )
}

/// Splits the list `items` into those that start with `prefix` and those that do not.
pub fn partition_by_prefix(items: &Vec<String>, prefix: &str) -> (r: (Vec<String>, Vec<String>))
    ensures
        views(r.0@) == views(items@).filter(starts_with_text(prefix@)),
        views(r.1@) == views(items@).filter(lacks_prefix(prefix@)),
{
    let mut with: Vec<String> = Vec::new();
    let mut without: Vec<String> = Vec::new();
    let mut i: usize = 0;
    while i < items.len()
        invariant
            i <= items@.len(),
            views(with@) == views(items@).take(i as int).filter(starts_with_text(prefix@)),
            views(without@) == views(items@).take(i as int).filter(lacks_prefix(prefix@)),
        decreases items@.len() - i,
    {
        let ghost pre = views(items@).take(i as int);
        let item = items[i].clone();
        let ghost w0 = with@;
        let ghost o0 = without@;
        if starts_with(items[i].as_str(), prefix) {
            with.push(item);
            assert(views(with@) =~= views(w0).push(items@[i as int]@));
        } else {
            without.push(item);
            assert(views(without@) =~= views(o0).push(items@[i as int]@));
        }
        i = i + 1;
        proof {
            let e = items@[i - 1]@;
            assert(views(items@).take(i as int) =~= pre.push(e));
            pre.lemma_filter_push(e, starts_with_text(prefix@));
            pre.lemma_filter_push(e, lacks_prefix(prefix@));
        }
    }
    assert(views(items@).take(i as int) =~= views(items@));
    (with, without)
}

/// Removes from the `sep`-separated list `path` every entry that starts with
/// `prefix`; also tells how many were removed.
pub fn remove_entries_with_prefix(path: &str, prefix: &str, sep: char) -> (r: (String, usize))
    ensures
        r.0@ == path_without(path@, prefix@, sep),
        r.1 == count_prefixed(path@, prefix@, sep),
{
    let parts = split_str(path, sep);
    let (with, without) = partition_by_prefix(&parts, prefix);
    let s = join_strs(&without, sep);
    proof {
        assert(views(with@).len() == with@.len());
    }
    (s, with.len())
}

/// The directory that holds all installed versions of `sdkit`.
pub fn sdkit_dir(layout: &Layout, sdkit: &str) -> (p: String)
    ensures
        p@ == sdkit_prefix(*layout, sdkit@),
{
    let rel = join_path("candidates", sdkit, layout.dir_separator);
    join_path(layout.workdir.as_str(), rel.as_str(), layout.dir_separator)
}

/// Removes every `PATH` entry that lies under the sdkit's directory; also tells
/// how many entries were removed.
pub fn remove_sdkit_from_path(layout: &Layout, sdkit: &str, path_value: &str) -> (r: (
    String,
    usize,
))
    ensures
        r.0@ == path_without(path_value@, sdkit_prefix(*layout, sdkit@), layout.path_separator),
        r.1 == count_prefixed(path_value@, sdkit_prefix(*layout, sdkit@), layout.path_separator),
{
    let prefix = sdkit_dir(layout, sdkit);
    remove_entries_with_prefix(path_value, prefix.as_str(), layout.path_separator)
}

/// `v` put in front of `env_path`, with the path separator between them.
pub fn append_to_env_path(v: &str, env_path: &str, path_separator: char) -> (r: String)
    ensures
        r@ == v@.push(path_separator) + env_path@,
{
    let mut r = String::from_str(v);
    crate::text::push_char(&mut r, path_separator);
    r.append(env_path);
    r
}

/// A change of `PATH`: the value to keep as backup, the new value, and how many
/// entries were removed.
pub struct PathChange {
    pub backup: String,
    pub new_path: String,
    pub removed: usize,
}

/// Removes from `PATH` every entry that lies in the working directory.
/// The backup is the value before the change.
pub fn clear_path(layout: &Layout, env_path: &str) -> (c: PathChange)
    ensures
        c.backup@ == env_path@,
        c.new_path@ == path_without(env_path@, layout.workdir@, layout.path_separator),
        c.removed == count_prefixed(env_path@, layout.workdir@, layout.path_separator),
{
    let (new_path, removed) = remove_entries_with_prefix(
        env_path,
        layout.workdir.as_str(),
        layout.path_separator,
    );
    PathChange { backup: String::from_str(env_path), new_path, removed }
}

/// What is installed: each candidate's name with the versions found in its
/// directory.
pub struct Installed {
    pub candidates: Vec<(String, Vec<String>)>,
}

impl Installed {
    /// No candidate is listed twice.
    pub open spec fn wf(&self) -> bool {
        keys_unique(self.candidates@)
    }

    /// The names of the installed candidates.
    pub open spec fn names(&self) -> Seq<Seq<char>> {
        self.candidates@.map_values(|e: (String, Vec<String>)| e.0@)
    }

    /// The installed versions of the candidate called `name` (none if it is not installed).
    pub open spec fn versions_of(&self, name: Seq<char>) -> Seq<Seq<char>> {
        if has_key(self.candidates@, name) {
            views(self.candidates@[key_index(self.candidates@, name)].1@)
        } else {
            Seq::<Seq<char>>::empty()
        }
    }

    /// Nothing installed.
    pub fn new() -> (r: Installed)
        ensures
            r.wf(),
            r.candidates@.len() == 0,
    {
        Installed { candidates: Vec::new() }
    }

    /// Records the versions of a candidate (replacing what was recorded for that name).
    pub fn add(&mut self, name: String, versions: Vec<String>)
        requires
            old(self).wf(),
        ensures
            final(self).wf(),
            final(self).candidates@ == assoc_insert(old(self).candidates@, name, versions),
    {
        insert_entry(&mut self.candidates, name, versions);
    }
}

/// The entries of `items` that start with `partial`.
pub open spec fn prefix_matches(items: Seq<Seq<char>>, partial: Seq<char>) -> Seq<Seq<char>> {
    items.filter(starts_with_text(partial))
}

/// The entry that `partial` designates: the only one that starts with it.
pub open spec fn unique_match(items: Seq<Seq<char>>, partial: Seq<char>) -> Option<Seq<char>> {
    let m = prefix_matches(items, partial);
    if m.len() == 1 {
        Some(m[0])
    } else {
        None
    }
}

/// What a partial name was meant to designate.
#[derive(PartialEq, Eq, Structural, Clone, Copy, Debug)]
pub enum ResolveTarget {
    Candidate,
    Version,
}

/// A partial name that designates no entry (`matches` is empty) or more than one.
pub struct ResolveError {
    pub target: ResolveTarget,
    pub partial: String,
    pub matches: Vec<String>,
}

/// The result of resolving `partial` against `items`, as the functions below state it.
pub open spec fn resolved_as(
    r: Result<String, ResolveError>,
    items: Seq<Seq<char>>,
    partial: Seq<char>,
    target: ResolveTarget,
) -> bool {
    match r {
        Ok(v) => unique_match(items, partial) == Some(v@),
        Err(e) => {
            &&& unique_match(items, partial) is None
            &&& e.target == target
            &&& e.partial@ == partial
            &&& views(e.matches@) == prefix_matches(items, partial)
        },
    }
}

fn resolve_unique(items: &Vec<String>, partial: &str, target: ResolveTarget) -> (r: Result<
    String,
    ResolveError,
>)
    ensures
        resolved_as(r, views(items@), partial@, target),
{
    let (mut matches, _) = partition_by_prefix(items, partial);
    if matches.len() == 1 {
        proof {
            assert(views(matches@)[0] == matches@[0]@);
        }
        Ok(matches.remove(0))
    } else {
        Err(ResolveError { target, partial: String::from_str(partial), matches })
    }
}

/// The installed candidate that `sdkit_partial` designates.
pub fn partial_sdkit_resolve(installed: &Installed, sdkit_partial: &str) -> (r: Result<
    String,
    ResolveError,
>)
    ensures
        resolved_as(r, installed.names(), sdkit_partial@, ResolveTarget::Candidate),
{
    let mut names: Vec<String> = Vec::new();
    let mut i: usize = 0;
    while i < installed.candidates.len()
        invariant
            i <= installed.candidates@.len(),
            views(names@) == installed.names().take(i as int),
        decreases installed.candidates@.len() - i,
    {
        let ghost before = names@;
        let name = installed.candidates[i].0.clone();
        names.push(name);
        i = i + 1;
        assert(views(names@) =~= views(before).push(installed.candidates@[i - 1].0@));
        assert(installed.names().take(i as int) =~= installed.names().take(i - 1).push(
            installed.candidates@[i - 1].0@,
        ));
    }
    assert(installed.names().take(i as int) =~= installed.names());
    resolve_unique(&names, sdkit_partial, ResolveTarget::Candidate)
}

/// The installed version of `sdkit` that `version_partial` designates.
pub fn partial_sdkit_version_resolve(installed: &Installed, sdkit: &str, version_partial: &str) -> (r:
    Result<String, ResolveError>)
    requires
        installed.wf(),
    ensures
        resolved_as(r, installed.versions_of(sdkit@), version_partial@, ResolveTarget::Version),
{
    match find_key(&installed.candidates, sdkit) {
        Some(i) => {
            proof {
                crate::assoc::lemma_key_index_unique(installed.candidates@, i as int);
            }
            resolve_unique(&installed.candidates[i].1, version_partial, ResolveTarget::Version)
        },
        None => {
            let none: Vec<String> = Vec::new();
            proof {
                assert(views(none@) =~= Seq::<Seq<char>>::empty());
            }
            resolve_unique(&none, version_partial, ResolveTarget::Version)
        },
    }
}

/// Using a version of an sdkit: what was resolved, where it is installed, and
/// how `PATH` changes (the backup is `PATH` once the sdkit's old entries are gone).
pub struct UsePlan {
    pub sdkit: String,
    pub version: String,
    pub install_dir: String,
    pub change: PathChange,
}

/// Resolves `sdkit` and `version` against what is installed and tells how `PATH`
/// changes when that version is used.
pub fn set_sdkit_as_current(
    layout: &Layout,
    installed: &Installed,
    env_path: &str,
    sdkit: &str,
    version: &str,
) -> (r: Result<UsePlan, ResolveError>)
    requires
        installed.wf(),
    ensures
        match r {
            Ok(p) => {
                &&& unique_match(installed.names(), sdkit@) == Some(p.sdkit@)
                &&& unique_match(installed.versions_of(p.sdkit@), version@) == Some(p.version@)
                &&& p.install_dir@ == install_dir_of(*layout, p.sdkit@, p.version@)
                &&& p.change.backup@ == path_without(
                    env_path@,
                    sdkit_prefix(*layout, p.sdkit@),
                    layout.path_separator,
                )
                &&& p.change.removed == count_prefixed(
                    env_path@,
                    sdkit_prefix(*layout, p.sdkit@),
                    layout.path_separator,
                )
                &&& p.change.new_path@ == path_after_use(*layout, env_path@, p.sdkit@, p.version@)
            },
            Err(e) => match unique_match(installed.names(), sdkit@) {
                None => resolved_as(Err(e), installed.names(), sdkit@, ResolveTarget::Candidate),
                Some(s) => resolved_as(
                    Err(e),
                    installed.versions_of(s),
                    version@,
                    ResolveTarget::Version,
                ),
            },
        },
{
    let sdkit = partial_sdkit_resolve(installed, sdkit)?;
    let version = partial_sdkit_version_resolve(installed, sdkit.as_str(), version)?;
    let rel = join_path("candidates", sdkit.as_str(), layout.dir_separator);
    let rel = join_path(rel.as_str(), version.as_str(), layout.dir_separator);
    let install_dir = join_path(layout.workdir.as_str(), rel.as_str(), layout.dir_separator);
    let (backup, removed) = remove_sdkit_from_path(layout, sdkit.as_str(), env_path);
    let bin = join_path(install_dir.as_str(), "bin", layout.dir_separator);
    let new_path = append_to_env_path(bin.as_str(), backup.as_str(), layout.path_separator);
    Ok(UsePlan { sdkit, version, install_dir, change: PathChange { backup, new_path, removed } })
}

/// Resolves `sdkit` against what is installed and tells how `PATH` changes when
/// its entries are removed (the backup is `PATH` before the change).
pub fn undo_set_sdkit_as_current(
    layout: &Layout,
    installed: &Installed,
    env_path: &str,
    sdkit: &str,
) -> (r: Result<(String, PathChange), ResolveError>)
    ensures
        match r {
            Ok((s, c)) => {
                &&& unique_match(installed.names(), sdkit@) == Some(s@)
                &&& c.backup@ == env_path@
                &&& c.new_path@ == path_without(
                    env_path@,
                    sdkit_prefix(*layout, s@),
                    layout.path_separator,
                )
                &&& c.removed == count_prefixed(
                    env_path@,
                    sdkit_prefix(*layout, s@),
                    layout.path_separator,
                )
            },
            Err(e) => resolved_as(Err(e), installed.names(), sdkit@, ResolveTarget::Candidate),
        },
{
    let sdkit = partial_sdkit_resolve(installed, sdkit)?;
    let (new_path, removed) = remove_sdkit_from_path(layout, sdkit.as_str(), env_path);
    Ok((sdkit, PathChange { backup: String::from_str(env_path), new_path, removed }))
}

/// A prefix of a prefix is a prefix.
pub proof fn lemma_prefix_trans(a: Seq<char>, b: Seq<char>, c: Seq<char>)
    requires
        a.is_prefix_of(b),
        b.is_prefix_of(c),
    ensures
        a.is_prefix_of(c),
{
    assert forall|i: int| 0 <= i < a.len() implies a[i] == c.subrange(0, a.len() as int)[i] by {
        assert(a[i] == b.subrange(0, a.len() as int)[i]);
        assert(b[i] == c.subrange(0, b.len() as int)[i]);
    }
    assert(a =~= c.subrange(0, a.len() as int));
}

/// Filtering a list whose entries all pass keeps it whole.
pub proof fn lemma_filter_all(s: Seq<Seq<char>>, pred: spec_fn(Seq<char>) -> bool)
    requires
        forall|i: int| 0 <= i < s.len() ==> pred(#[trigger] s[i]),
    ensures
        s.filter(pred) == s,
    decreases s.len(),
{
    if s.len() > 0 {
        let init = s.drop_last();
        assert forall|i: int| 0 <= i < init.len() implies pred(#[trigger] init[i]) by {
            assert(init[i] == s[i]);
        }
        lemma_filter_all(init, pred);
        init.lemma_filter_push(s.last(), pred);
        assert(pred(s[s.len() - 1]));
        assert(init.push(s.last()) =~= s);
    } else {
        reveal(Seq::filter);
    }
}

/// Filtering keeps a list free of the separator.
pub proof fn lemma_filter_free(s: Seq<Seq<char>>, pred: spec_fn(Seq<char>) -> bool, sep: char)
    requires
        all_free_of(s, sep),
    ensures
        all_free_of(s.filter(pred), sep),
    decreases s.len(),
{
    if s.len() > 0 {
        let init = s.drop_last();
        assert(all_free_of(init, sep)) by {
            assert forall|i: int| 0 <= i < init.len() implies !(#[trigger] init[i]).contains(
                sep,
            ) by {
                assert(init[i] == s[i]);
            }
        }
        lemma_filter_free(init, pred, sep);
        init.lemma_filter_push(s.last(), pred);
        assert(init.push(s.last()) =~= s);
        assert(!s[s.len() - 1].contains(sep));
    } else {
        reveal(Seq::filter);
    }
}

/// Every entry of a filtered list passes the filter.
pub proof fn lemma_filter_passes(s: Seq<Seq<char>>, pred: spec_fn(Seq<char>) -> bool)
    ensures
        forall|i: int| 0 <= i < s.filter(pred).len() ==> pred(#[trigger] s.filter(pred)[i]),
{
    assert forall|i: int| 0 <= i < s.filter(pred).len() implies pred(#[trigger] s.filter(pred)[i]) by {
        s.lemma_filter_pred(pred, i);
    }
}

/// A stricter filter applied after a looser one is the stricter filter.
pub proof fn lemma_filter_stricter(
    s: Seq<Seq<char>>,
    loose: spec_fn(Seq<char>) -> bool,
    strict: spec_fn(Seq<char>) -> bool,
)
    requires
        forall|x: Seq<char>| #[trigger] strict(x) ==> loose(x),
    ensures
        s.filter(strict) == s.filter(loose).filter(strict),
    decreases s.len(),
{
    if s.len() > 0 {
        let init = s.drop_last();
        let e = s.last();
        lemma_filter_stricter(init, loose, strict);
        assert(init.push(e) =~= s);
        init.lemma_filter_push(e, loose);
        init.lemma_filter_push(e, strict);
        init.filter(loose).lemma_filter_push(e, strict);
    } else {
        reveal(Seq::filter);
    }
}

/// The texts kept by [`path_without`] split back into the kept entries, or into
/// one empty entry when nothing is kept.
pub proof fn lemma_split_path_without(path: Seq<char>, prefix: Seq<char>, sep: char)
    ensures
        ({
            let kept = split_on(path, sep).filter(lacks_prefix(prefix));
            let back = split_on(path_without(path, prefix, sep), sep);
            &&& kept.len() >= 1 ==> back == kept
            &&& kept.len() == 0 ==> back == seq![Seq::<char>::empty()]
            &&& forall|i: int| 0 <= i < kept.len() ==> !prefix.is_prefix_of(#[trigger] kept[i])
        }),
{
    let parts = split_on(path, sep);
    let kept = parts.filter(lacks_prefix(prefix));
    lemma_split_free_of(path, sep);
    lemma_filter_free(parts, lacks_prefix(prefix), sep);
    lemma_filter_passes(parts, lacks_prefix(prefix));
    if kept.len() >= 1 {
        lemma_split_join(kept, sep);
    } else {
        assert(split_on(Seq::<char>::empty(), sep) =~= seq![Seq::<char>::empty()]);
    }
}

/// Removing the entries with a prefix a second time changes nothing.
pub proof fn law_path_without_idempotent(path: Seq<char>, prefix: Seq<char>, sep: char)
    ensures
        path_without(path_without(path, prefix, sep), prefix, sep) == path_without(
            path,
            prefix,
            sep,
        ),
{
    let kept = split_on(path, sep).filter(lacks_prefix(prefix));
    let once = path_without(path, prefix, sep);
    lemma_split_path_without(path, prefix, sep);
    if kept.len() >= 1 {
        lemma_filter_all(kept, lacks_prefix(prefix));
    } else {
        let single = seq![Seq::<char>::empty()];
        Seq::<Seq<char>>::empty().lemma_filter_push(Seq::<char>::empty(), lacks_prefix(prefix));
        assert(Seq::<Seq<char>>::empty().push(Seq::<char>::empty()) =~= single);
        reveal(Seq::filter);
        if lacks_prefix(prefix)(Seq::<char>::empty()) {
            assert(single.filter(lacks_prefix(prefix)) =~= single);
        } else {
            assert(single.filter(lacks_prefix(prefix)).len() == 0);
        }
    }
}

/// Once the entries with a non-empty prefix are removed, no entry with it remains.
pub proof fn law_no_prefixed_entry_remains(path: Seq<char>, prefix: Seq<char>, sep: char)
    requires
        prefix.len() > 0,
    ensures
        forall|i: int|
            0 <= i < split_on(path_without(path, prefix, sep), sep).len() ==> !prefix.is_prefix_of(
                #[trigger] split_on(path_without(path, prefix, sep), sep)[i],
            ),
{
    lemma_split_path_without(path, prefix, sep);
}

/// `base` is a prefix of `base` extended by a relative `rel`.
proof fn lemma_join_extends(base: Seq<char>, rel: Seq<char>, sep: char)
    requires
        rel.len() == 0 || rel[0] != sep,
    ensures
        base.is_prefix_of(path_join(base, rel, sep)),
        base.len() > 0 ==> path_join(base, rel, sep).len() > 0,
{
    let j = path_join(base, rel, sep);
    assert(base =~= j.subrange(0, base.len() as int));
}

/// Joining a directory with a longer path that extends a shorter one keeps the order.
proof fn lemma_join_monotone(w: Seq<char>, a: Seq<char>, b: Seq<char>, sep: char)
    requires
        a.len() > 0,
        a.is_prefix_of(b),
    ensures
        path_join(w, a, sep).is_prefix_of(path_join(w, b, sep)),
{
    assert(b[0] == a[0]) by {
        assert(a[0] == b.subrange(0, a.len() as int)[0]);
    }
    let ja = path_join(w, a, sep);
    let jb = path_join(w, b, sep);
    if a[0] == sep {
        assert(ja == a && jb == b);
    } else {
        let head = if w.len() == 0 || w.last() == sep {
            w
        } else {
            w.push(sep)
        };
        assert(ja == head + a && jb == head + b);
        assert forall|i: int| 0 <= i < ja.len() implies ja[i] == jb.subrange(
            0,
            ja.len() as int,
        )[i] by {
            if i >= head.len() {
                assert(a[i - head.len()] == b.subrange(0, a.len() as int)[i - head.len()]);
            }
        }
        assert(ja =~= jb.subrange(0, ja.len() as int));
    }
}

/// The entry that uses a version lies in the sdkit's directory.
pub proof fn lemma_use_entry_in_sdkit_dir(layout: Layout, sdkit: Seq<char>, version: Seq<char>)
    requires
        layout.wf(),
        version.len() == 0 || version[0] != layout.dir_separator,
    ensures
        sdkit_prefix(layout, sdkit).is_prefix_of(use_entry(layout, sdkit, version)),
{
    let ds = layout.dir_separator;
    reveal_strlit("candidates");
    reveal_strlit("bin");
    let c = path_join("candidates"@, sdkit, ds);
    let c2 = path_join(c, version, ds);
    assert(c.len() > 0);
    lemma_join_extends(c, version, ds);
    lemma_join_monotone(layout.workdir@, c, c2, ds);
    let dir = install_dir_of(layout, sdkit, version);
    assert("bin"@[0] == 'b');
    lemma_join_extends(dir, "bin"@, ds);
    lemma_prefix_trans(sdkit_prefix(layout, sdkit), dir, use_entry(layout, sdkit, version));
}

/// Reverting an sdkit right after using one of its versions gives `PATH` as it
/// was, less that sdkit's entries: the same value as the backup taken on use.
pub proof fn law_revert_after_use(
    layout: Layout,
    path: Seq<char>,
    sdkit: Seq<char>,
    version: Seq<char>,
)
    requires
        layout.wf(),
        version.len() == 0 || version[0] != layout.dir_separator,
        !use_entry(layout, sdkit, version).contains(layout.path_separator),
    ensures
        path_without(
            path_after_use(layout, path, sdkit, version),
            sdkit_prefix(layout, sdkit),
            layout.path_separator,
        ) == path_without(path, sdkit_prefix(layout, sdkit), layout.path_separator),
{
    let ps = layout.path_separator;
    let pre = sdkit_prefix(layout, sdkit);
    let bin = use_entry(layout, sdkit, version);
    let rest = path_without(path, pre, ps);
    lemma_use_entry_in_sdkit_dir(layout, sdkit, version);
    assert(bin.push(ps) + rest =~= bin + seq![ps] + rest);
    lemma_split_concat(bin, rest, ps);
    lemma_split_free_text(bin, ps);
    Seq::<Seq<char>>::filter_distributes_over_add(
        seq![bin],
        split_on(rest, ps),
        lacks_prefix(pre),
    );
    Seq::<Seq<char>>::empty().lemma_filter_push(bin, lacks_prefix(pre));
    assert(Seq::<Seq<char>>::empty().push(bin) =~= seq![bin]);
    reveal(Seq::filter);
    assert(seq![bin].filter(lacks_prefix(pre)) =~= Seq::<Seq<char>>::empty());
    assert(Seq::<Seq<char>>::empty() + split_on(rest, ps).filter(lacks_prefix(pre))
        =~= split_on(rest, ps).filter(lacks_prefix(pre)));
    law_path_without_idempotent(path, pre, ps);
}

/// Using a version and reverting it gives `PATH` back as it was, when it held no
/// entry in that sdkit's directory.
pub proof fn law_revert_restores(layout: Layout, path: Seq<char>, sdkit: Seq<char>, version: Seq<char>)
    requires
        layout.wf(),
        version.len() == 0 || version[0] != layout.dir_separator,
        !use_entry(layout, sdkit, version).contains(layout.path_separator),
        count_prefixed(path, sdkit_prefix(layout, sdkit), layout.path_separator) == 0,
    ensures
        path_without(
            path_after_use(layout, path, sdkit, version),
            sdkit_prefix(layout, sdkit),
            layout.path_separator,
        ) == path,
{
    let ps = layout.path_separator;
    let pre = sdkit_prefix(layout, sdkit);
    let parts = split_on(path, ps);
    law_revert_after_use(layout, path, sdkit, version);
    assert forall|i: int| 0 <= i < parts.len() implies lacks_prefix(pre)(#[trigger] parts[i]) by {
        if !lacks_prefix(pre)(parts[i]) {
            parts.lemma_filter_contains(starts_with_text(pre), i);
        }
    }
    lemma_filter_all(parts, lacks_prefix(pre));
    lemma_join_split(path, ps);
}

/// After a version is used, the first `PATH` entry is that version's `bin` directory.
pub proof fn law_use_entry_first(layout: Layout, path: Seq<char>, sdkit: Seq<char>, version: Seq<char>)
    requires
        !use_entry(layout, sdkit, version).contains(layout.path_separator),
    ensures
        split_on(path_after_use(layout, path, sdkit, version), layout.path_separator)[0]
            == use_entry(layout, sdkit, version),
{
    let ps = layout.path_separator;
    let bin = use_entry(layout, sdkit, version);
    let rest = path_without(path, sdkit_prefix(layout, sdkit), ps);
    assert(bin.push(ps) + rest =~= bin + seq![ps] + rest);
    lemma_split_concat(bin, rest, ps);
    lemma_split_free_text(bin, ps);
}

/// Entry `i` is the only one of `s` that passes `f`.
pub open spec fn only_at<A>(s: Seq<A>, f: spec_fn(A) -> bool, i: int) -> bool {
    &&& 0 <= i < s.len()
    &&& f(s[i])
    &&& forall|j: int| 0 <= j < s.len() && j != i ==> !f(#[trigger] s[j])
}

/// A filter keeps nothing exactly when nothing passes, and keeps a single entry
/// exactly when one entry alone passes; that entry is then what it keeps.
proof fn lemma_filter_single<A>(s: Seq<A>, f: spec_fn(A) -> bool)
    ensures
        (s.filter(f).len() == 0) == (forall|j: int| 0 <= j < s.len() ==> !f(#[trigger] s[j])),
        (s.filter(f).len() == 1) == (exists|i: int| #[trigger] only_at(s, f, i)),
        forall|i: int| #[trigger] only_at(s, f, i) ==> s.filter(f) == seq![s[i]],
    decreases s.len(),
{
    reveal(Seq::filter);
    if s.len() > 0 {
        let n = s.len() - 1;
        let init = s.drop_last();
        let x = s.last();
        lemma_filter_single(init, f);
        assert(init.push(x) =~= s);
        init.lemma_filter_push(x, f);
        assert(forall|j: int| 0 <= j < n ==> #[trigger] s[j] == init[j]);
        if f(x) {
            assert(s.filter(f) == init.filter(f).push(x));
            assert forall|i: int| #[trigger] only_at(s, f, i) implies i == n by {
                if i != n {
                    assert(!f(s[n]));
                }
            }
            if init.filter(f).len() == 0 {
                assert forall|j: int| 0 <= j < s.len() && j != n implies !f(#[trigger] s[j]) by {
                    assert(s[j] == init[j]);
                }
                assert(only_at(s, f, n));
                assert(init.filter(f) =~= Seq::<A>::empty());
                assert(s.filter(f) =~= seq![x]);
            } else {
                assert(!only_at(s, f, n)) by {
                    let j = choose|j: int| 0 <= j < init.len() && f(#[trigger] init[j]);
                    assert(s[j] == init[j]);
                }
            }
            assert(!(forall|j: int| 0 <= j < s.len() ==> !f(#[trigger] s[j]))) by {
                assert(f(s[n]));
            }
        } else {
            assert(s.filter(f) == init.filter(f));
            assert forall|i: int| #[trigger] only_at(s, f, i) <==> only_at(init, f, i) by {
                if only_at(s, f, i) {
                    assert(i != n);
                    assert forall|j: int| 0 <= j < init.len() && j != i implies !f(
                        #[trigger] init[j],
                    ) by {
                        assert(s[j] == init[j]);
                    }
                }
                if only_at(init, f, i) {
                    assert forall|j: int| 0 <= j < s.len() && j != i implies !f(#[trigger] s[j]) by {
                        if j < n {
                            assert(s[j] == init[j]);
                        }
                    }
                }
            }
            if exists|i: int| #[trigger] only_at(init, f, i) {
                let i = choose|i: int| #[trigger] only_at(init, f, i);
                assert(only_at(s, f, i));
            }
            if exists|i: int| #[trigger] only_at(s, f, i) {
                let i = choose|i: int| #[trigger] only_at(s, f, i);
                assert(only_at(init, f, i));
            }
            assert((forall|j: int| 0 <= j < s.len() ==> !f(#[trigger] s[j])) == (forall|j: int|
                0 <= j < init.len() ==> !f(#[trigger] init[j])));
        }
    }
}

/// Entry `i` is the only entry of `items` that starts with `partial`.
pub open spec fn only_one_starts_with(items: Seq<Seq<char>>, partial: Seq<char>, i: int) -> bool {
    &&& 0 <= i < items.len()
    &&& partial.is_prefix_of(items[i])
    &&& forall|j: int| 0 <= j < items.len() && j != i ==> !partial.is_prefix_of(#[trigger] items[j])
}

/// Every entry a partial name matches starts with it and comes from the list,
/// and every entry of the list that starts with it is matched.
pub proof fn law_prefix_matches_start_with_partial(items: Seq<Seq<char>>, partial: Seq<char>)
    ensures
        forall|k: int|
            0 <= k < prefix_matches(items, partial).len() ==> partial.is_prefix_of(
                #[trigger] prefix_matches(items, partial)[k],
            ) && items.contains(prefix_matches(items, partial)[k]),
        forall|i: int|
            0 <= i < items.len() && partial.is_prefix_of(#[trigger] items[i]) ==> prefix_matches(
                items,
                partial,
            ).contains(items[i]),
{
    let f = starts_with_text(partial);
    let m = items.filter(f);
    assert forall|k: int| 0 <= k < m.len() implies partial.is_prefix_of(#[trigger] m[k])
        && items.contains(m[k]) by {
        items.lemma_filter_pred(f, k);
        assert(m.contains(m[k]));
        items.lemma_filter_contains_rev(f, m[k]);
    }
    assert forall|i: int| 0 <= i < items.len() && partial.is_prefix_of(#[trigger] items[i]) implies m.contains(
        items[i],
    ) by {
        items.lemma_filter_contains(f, i);
    }
}

/// A partial name resolves exactly when one entry alone starts with it, and it
/// resolves to that entry; when none or several do, it does not resolve.
pub proof fn law_resolves_to_the_only_prefixed_entry(items: Seq<Seq<char>>, partial: Seq<char>)
    ensures
        (unique_match(items, partial) is Some) == (exists|i: int|
            #[trigger] only_one_starts_with(items, partial, i)),
        forall|i: int|
            #[trigger] only_one_starts_with(items, partial, i) ==> unique_match(items, partial)
                == Some(items[i]),
{
    let f = starts_with_text(partial);
    lemma_filter_single(items, f);
    assert forall|i: int| #[trigger] only_one_starts_with(items, partial, i) <==> only_at(items, f, i) by {
        if only_one_starts_with(items, partial, i) {
            assert forall|j: int| 0 <= j < items.len() && j != i implies !f(#[trigger] items[j]) by {
                assert(!partial.is_prefix_of(items[j]));
            }
        }
        if only_at(items, f, i) {
            assert forall|j: int| 0 <= j < items.len() && j != i implies !partial.is_prefix_of(
                #[trigger] items[j],
            ) by {
                assert(!f(items[j]));
            }
        }
    }
    if exists|i: int| #[trigger] only_at(items, f, i) {
        let i = choose|i: int| #[trigger] only_at(items, f, i);
        assert(only_one_starts_with(items, partial, i));
    }
    if exists|i: int| #[trigger] only_one_starts_with(items, partial, i) {
        let i = choose|i: int| #[trigger] only_one_starts_with(items, partial, i);
        assert(only_at(items, f, i));
    }
}

/// A resolved name designates itself: resolving the full name gives it again.
pub proof fn law_resolve_idempotent(items: Seq<Seq<char>>, partial: Seq<char>)
    requires
        unique_match(items, partial) is Some,
    ensures
        unique_match(items, unique_match(items, partial)->0) == unique_match(items, partial),
{
    let v = unique_match(items, partial)->0;
    let m = prefix_matches(items, partial);
    assert(m[0] == v);
    lemma_filter_passes(items, starts_with_text(partial));
    assert(partial.is_prefix_of(v));
    assert forall|x: Seq<char>| #[trigger] starts_with_text(v)(x) implies starts_with_text(
        partial,
    )(x) by {
        lemma_prefix_trans(partial, v, x);
    }
    lemma_filter_stricter(items, starts_with_text(partial), starts_with_text(v));
    assert(m =~= Seq::<Seq<char>>::empty().push(v));
    Seq::<Seq<char>>::empty().lemma_filter_push(v, starts_with_text(v));
    assert(v =~= v.subrange(0, v.len() as int));
    reveal(Seq::filter);
    assert(Seq::<Seq<char>>::empty().filter(starts_with_text(v)) =~= Seq::<Seq<char>>::empty());
    assert(prefix_matches(items, v) =~= seq![v]);
}

} // verus!
