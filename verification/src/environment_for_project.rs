//! Setting up the environment of a project for an activity: which links to the
//! installed versions are made, and how `PATH` comes to name them.
use vstd::prelude::*;
use crate::activity::{deps_view, Activity, EnvDependency, Project};
use crate::assoc::{
    assoc_insert, find_first, first_index, insert_entry, keyed_view, keys_unique,
    lemma_keyed_view_insert,
};
use crate::filesystem::{join_path, path_join, workdir_subpath, Layout};
use crate::text::{push_char, split_on};
use crate::use_sdkit::{
    append_to_env_path, partial_sdkit_resolve, partial_sdkit_version_resolve, path_without,
    remove_sdkit_from_path, resolved_as, sdkit_prefix, unique_match, Installed, ResolveError,
    ResolveTarget,
};

verus! {

/// The candidate and version that a dependency designates among what is installed.
pub open spec fn resolve_dep(installed: Installed, dep: (Seq<char>, Seq<char>)) -> Option<
    (Seq<char>, Seq<char>),
> {
    match unique_match(installed.names(), dep.0) {
        None => None,
        Some(c) => match unique_match(installed.versions_of(c), dep.1) {
            None => None,
            Some(v) => Some((c, v)),
        },
    }
}

/// The error that resolving a dependency gives, as the resolving functions state it.
pub open spec fn dep_error(installed: Installed, dep: (Seq<char>, Seq<char>), e: ResolveError) -> bool {
    match unique_match(installed.names(), dep.0) {
        None => resolved_as(Err(e), installed.names(), dep.0, ResolveTarget::Candidate),
        Some(c) => resolved_as(Err(e), installed.versions_of(c), dep.1, ResolveTarget::Version),
    }
}

/// The directory that holds a project's links.
pub open spec fn selected_dir(layout: Layout) -> Seq<char> {
    workdir_subpath(layout, "selected"@)
}

/// The link through which a project reaches its version of a candidate.
pub open spec fn link_path(layout: Layout, project_id: Seq<char>, candidate: Seq<char>) -> Seq<char> {
    path_join(
        selected_dir(layout),
        "current."@ + project_id + "."@ + candidate,
        layout.dir_separator,
    )
}

/// The directory of an installed version, as the link targets it.
pub open spec fn target_path(layout: Layout, candidate: Seq<char>, version: Seq<char>) -> Seq<char> {
    path_join(
        path_join(workdir_subpath(layout, "candidates"@), candidate, layout.dir_separator),
        version,
        layout.dir_separator,
    )
}

/// A link to make: from `link` (in `selected_dir`) to the installed version at `target`.
pub struct SymlinkTask {
    pub candidate: String,
    pub version: String,
    pub selected_dir: String,
    pub link: String,
    pub target: String,
}

/// The task is the link of `project_id` to the version that `(candidate, version)` designates.
pub open spec fn task_for(
    layout: Layout,
    installed: Installed,
    project_id: Seq<char>,
    dep: (Seq<char>, Seq<char>),
    t: SymlinkTask,
) -> bool {
    &&& resolve_dep(installed, dep) == Some((t.candidate@, t.version@))
    &&& t.selected_dir@ == selected_dir(layout)
    &&& t.link@ == link_path(layout, project_id, t.candidate@)
    &&& t.target@ == target_path(layout, t.candidate@, t.version@)
}

/// Resolves a dependency against what is installed and tells which link
/// `project_id` needs for it.
pub fn symlink_candidate(
    layout: &Layout,
    installed: &Installed,
    candidate: &str,
    version: &str,
    project_id: &str,
) -> (r: Result<SymlinkTask, ResolveError>)
    requires
        installed.wf(),
    ensures
        match r {
            Ok(t) => task_for(*layout, *installed, project_id@, (candidate@, version@), t),
            Err(e) => resolve_dep(*installed, (candidate@, version@)) is None && dep_error(
                *installed,
                (candidate@, version@),
                e,
            ),
        },
{
    let selected = join_path(layout.workdir.as_str(), "selected", layout.dir_separator);
    let candidate = partial_sdkit_resolve(installed, candidate)?;
    let version = partial_sdkit_version_resolve(installed, candidate.as_str(), version)?;
    let mut name = String::from_str("current.");
    name.append(project_id);
    name.append(".");
    name.append(candidate.as_str());
    let link = join_path(selected.as_str(), name.as_str(), layout.dir_separator);
    let candidates = join_path(layout.workdir.as_str(), "candidates", layout.dir_separator);
    let target = join_path(candidates.as_str(), candidate.as_str(), layout.dir_separator);
    let target = join_path(target.as_str(), version.as_str(), layout.dir_separator);
    Ok(SymlinkTask { candidate, version, selected_dir: selected, link, target })
}

/// The links of a list of tasks, each candidate with the link made last for it.
pub open spec fn links_map(tasks: Seq<SymlinkTask>) -> Map<Seq<char>, Seq<char>>
    decreases tasks.len(),
{
    if tasks.len() == 0 {
        Map::empty()
    } else {
        links_map(tasks.drop_last()).insert(tasks.last().candidate@, tasks.last().link@)
    }
}

/// Texts seen as their characters.
pub open spec fn text_of() -> spec_fn(String) -> Seq<char> {
    |s: String| s@
}

/// What setting up a project's environment for an activity comes to: whether the
/// project has a configuration for it, the links to make in order, the link of
/// each candidate (the map that the setup returns), and the error that stopped
/// the setup, if any. The links listed are those of the dependencies before it.
pub struct ProjectEnvironment {
    pub configured: bool,
    pub tasks: Vec<SymlinkTask>,
    pub paths: Vec<(String, String)>,
    pub error: Option<ResolveError>,
}

/// The dependencies a project has in an activity, when it has a configuration for it.
pub open spec fn activity_deps(project: Project, activity_id: Seq<char>) -> Option<
    Seq<(Seq<char>, Seq<char>)>,
> {
    let i = first_index(project.per_activity@, activity_id);
    if i >= 0 {
        Some(deps_view(project.per_activity@[i].1@))
    } else {
        None
    }
}

/// Resolves each dependency the project has in the activity, in order, and tells
/// which link each needs; the first dependency that does not resolve stops it.
pub fn setup_environment_for_project(
    layout: &Layout,
    installed: &Installed,
    activity_id: &str,
    project: &Project,
) -> (r: ProjectEnvironment)
    requires
        installed.wf(),
    ensures
        keys_unique(r.paths@),
        keyed_view(r.paths@, text_of()) == links_map(r.tasks@),
        match activity_deps(*project, activity_id@) {
            None => !r.configured && r.tasks@.len() == 0 && r.error is None,
            Some(deps) => {
                &&& r.configured
                &&& r.tasks@.len() <= deps.len()
                &&& forall|i: int|
                    0 <= i < r.tasks@.len() ==> task_for(
                        *layout,
                        *installed,
                        project.id@,
                        deps[i],
                        #[trigger] r.tasks@[i],
                    )
                &&& (r.error is None <==> r.tasks@.len() == deps.len())
                &&& r.error matches Some(e) ==> {
                    &&& resolve_dep(*installed, deps[r.tasks@.len() as int]) is None
                    &&& dep_error(*installed, deps[r.tasks@.len() as int], e)
                }
            },
        },
{
    let mut tasks: Vec<SymlinkTask> = Vec::new();
    let mut paths: Vec<(String, String)> = Vec::new();
    let i = match find_first(&project.per_activity, activity_id) {
        Some(i) => i,
        None => {
            assert(keyed_view(paths@, text_of()) =~= links_map(tasks@));
            return ProjectEnvironment { configured: false, tasks, paths, error: None };
        },
    };
    let deps = &project.per_activity[i].1;
    let ghost dv = deps_view(deps@);
    let mut k: usize = 0;
    assert(keyed_view(paths@, text_of()) =~= links_map(tasks@));
    while k < deps.len()
        invariant
            installed.wf(),
            k <= deps@.len(),
            dv == deps_view(deps@),
            activity_deps(*project, activity_id@) == Some(dv),
            tasks@.len() == k,
            keys_unique(paths@),
            keyed_view(paths@, text_of()) == links_map(tasks@),
            forall|m: int|
                0 <= m < k ==> task_for(
                    *layout,
                    *installed,
                    project.id@,
                    dv[m],
                    #[trigger] tasks@[m],
                ),
        decreases deps@.len() - k,
    {
        let dep = &deps[k];
        assert(dv[k as int] == (dep.candidate@, dep.version@));
        match symlink_candidate(
            layout,
            installed,
            dep.candidate.as_str(),
            dep.version.as_str(),
            project.id.as_str(),
        ) {
            Ok(t) => {
                let key = t.candidate.clone();
                let link = t.link.clone();
                proof {
                    lemma_keyed_view_insert(paths@, key, link, text_of());
                }
                insert_entry(&mut paths, key, link);
                let ghost t0 = tasks@;
                tasks.push(t);
                proof {
                    assert(tasks@.drop_last() =~= t0);
                    assert forall|m: int|
                        0 <= m < k + 1 implies task_for(
                        *layout,
                        *installed,
                        project.id@,
                        dv[m],
                        #[trigger] tasks@[m],
                    ) by {
                        if m < k {
                            assert(tasks@[m] == t0[m]);
                        }
                    }
                }
                k = k + 1;
            },
            Err(e) => {
                return ProjectEnvironment { configured: true, tasks, paths, error: Some(e) };
            },
        }
    }
    ProjectEnvironment { configured: true, tasks, paths, error: None }
}

/// `PATH` after each candidate's entries are replaced by the `bin` directory of
/// its new location, taking the pairs `(candidate, directory)` in order.
pub open spec fn path_after_links(layout: Layout, path: Seq<char>, links: Seq<(Seq<char>, Seq<char>)>) -> Seq<
    char,
>
    decreases links.len(),
{
    if links.len() == 0 {
        path
    } else {
        let before = path_after_links(layout, path, links.drop_last());
        let (candidate, dir) = links.last();
        path_join(dir, "bin"@, layout.dir_separator).push(layout.path_separator) + path_without(
            before,
            sdkit_prefix(layout, candidate),
            layout.path_separator,
        )
    }
}

/// Setting links up keeps every link: each link's `bin` directory is an entry of
/// the resulting `PATH`, the last link's first, and every entry of the old
/// `PATH` outside the linked candidates' directories stays. This holds when no
/// `bin` directory holds the `PATH` separator and no later candidate's
/// directory holds an earlier link.
pub proof fn law_links_all_reach_path(
    layout: Layout,
    path: Seq<char>,
    links: Seq<(Seq<char>, Seq<char>)>,
)
    requires
        forall|i: int|
            0 <= i < links.len() ==> !(#[trigger] path_join(links[i].1, "bin"@, layout.dir_separator)).contains(
                layout.path_separator,
            ),
        forall|i: int, j: int|
            #![trigger links[i], links[j]]
            0 <= i < j < links.len() ==> !sdkit_prefix(layout, links[j].0).is_prefix_of(
                path_join(links[i].1, "bin"@, layout.dir_separator),
            ),
    ensures
        links.len() > 0 ==> split_on(path_after_links(layout, path, links), layout.path_separator)[0]
            == path_join(links.last().1, "bin"@, layout.dir_separator),
        forall|i: int|
            0 <= i < links.len() ==> split_on(
                path_after_links(layout, path, links),
                layout.path_separator,
            ).contains(#[trigger] path_join(links[i].1, "bin"@, layout.dir_separator)),
        forall|e: Seq<char>|
            #[trigger] split_on(path, layout.path_separator).contains(e) && (forall|i: int|
                0 <= i < links.len() ==> !sdkit_prefix(layout, links[i].0).is_prefix_of(e))
                ==> split_on(path_after_links(layout, path, links), layout.path_separator).contains(e),
    decreases links.len(),
{
    let ds = layout.dir_separator;
    let ps = layout.path_separator;
    if links.len() > 0 {
        let n = links.len() - 1;
        let init = links.drop_last();
        assert forall|i: int, j: int|
            #![trigger init[i], init[j]]
            0 <= i < j < init.len() implies !sdkit_prefix(layout, init[j].0).is_prefix_of(
                path_join(init[i].1, "bin"@, ds),
            ) by {
            assert(init[i] == links[i] && init[j] == links[j]);
        }
        assert forall|i: int| 0 <= i < init.len() implies !(#[trigger] path_join(
            init[i].1,
            "bin"@,
            ds,
        )).contains(ps) by {
            assert(init[i] == links[i]);
        }
        law_links_all_reach_path(layout, path, init);
        let before = path_after_links(layout, path, init);
        let (candidate, dir) = links.last();
        let bin = path_join(dir, "bin"@, ds);
        let pre = sdkit_prefix(layout, candidate);
        let rest = path_without(before, pre, ps);
        let result = path_after_links(layout, path, links);
        assert(links[n] == links.last());
        assert(!bin.contains(ps));
        assert(result == bin.push(ps) + rest);
        assert(bin.push(ps) + rest =~= bin + seq![ps] + rest);
        crate::text::lemma_split_concat(bin, rest, ps);
        crate::text::lemma_split_free_text(bin, ps);
        let parts = split_on(before, ps);
        let kept = parts.filter(crate::use_sdkit::lacks_prefix(pre));
        crate::use_sdkit::lemma_split_path_without(before, pre, ps);
        assert(split_on(result, ps) == seq![bin] + split_on(rest, ps));
        // an entry of the earlier `PATH` outside this candidate's directory stays
        assert forall|e: Seq<char>| parts.contains(e) && !pre.is_prefix_of(e) implies split_on(
            result,
            ps,
        ).contains(e) by {
            let k = choose|k: int| 0 <= k < parts.len() && parts[k] == e;
            parts.lemma_filter_contains(crate::use_sdkit::lacks_prefix(pre), k);
            let m = choose|m: int| 0 <= m < kept.len() && kept[m] == e;
            assert(split_on(rest, ps) == kept);
            assert(split_on(result, ps)[m + 1] == e);
        }
        assert(split_on(result, ps)[0] == bin);
        assert forall|i: int| 0 <= i < links.len() implies split_on(result, ps).contains(
            #[trigger] path_join(links[i].1, "bin"@, ds),
        ) by {
            if i < n {
                assert(init[i] == links[i]);
                assert(parts.contains(path_join(init[i].1, "bin"@, ds)));
                assert(links[n].0 == candidate);
                assert(!pre.is_prefix_of(path_join(links[i].1, "bin"@, ds)));
            } else {
                assert(split_on(result, ps)[0] == bin);
            }
        }
        assert forall|e: Seq<char>|
            #[trigger] split_on(path, ps).contains(e) && (forall|i: int|
                0 <= i < links.len() ==> !sdkit_prefix(layout, links[i].0).is_prefix_of(e))
                implies split_on(result, ps).contains(e) by {
            assert forall|i: int| 0 <= i < init.len() implies !sdkit_prefix(
                layout,
                init[i].0,
            ).is_prefix_of(e) by {
                assert(init[i] == links[i]);
            }
            assert(!pre.is_prefix_of(e)) by {
                assert(!sdkit_prefix(layout, links[n].0).is_prefix_of(e));
            }
        }
    }
}

/// Pairs of texts seen as pairs of character sequences.
pub open spec fn pairs_view(p: Seq<(String, String)>) -> Seq<(Seq<char>, Seq<char>)> {
    p.map_values(|e: (String, String)| (e.0@, e.1@))
}

/// Puts the `bin` directory of each candidate's new location in front of `PATH`,
/// after removing the entries of that candidate's installed versions.
pub fn update_candidates_in_path(layout: &Layout, env_path: &str, paths: &Vec<(String, String)>) -> (r:
    String)
    ensures
        r@ == path_after_links(*layout, env_path@, pairs_view(paths@)),
{
    let mut p = String::from_str(env_path);
    let mut i: usize = 0;
    while i < paths.len()
        invariant
            i <= paths@.len(),
            p@ == path_after_links(*layout, env_path@, pairs_view(paths@).take(i as int)),
        decreases paths@.len() - i,
    {
        let bin = join_path(paths[i].1.as_str(), "bin", layout.dir_separator);
        let (rest, _) = remove_sdkit_from_path(layout, paths[i].0.as_str(), p.as_str());
        p = append_to_env_path(bin.as_str(), rest.as_str(), layout.path_separator);
        i = i + 1;
        assert(pairs_view(paths@).take(i as int).drop_last() =~= pairs_view(paths@).take(i - 1));
    }
    assert(pairs_view(paths@).take(i as int) =~= pairs_view(paths@));
    p
}

/// The dependencies of the global project in an activity: `None` when the
/// activity or its `global` entry is missing.
pub fn global_dependencies<'a>(activities: &'a Vec<(String, Activity)>, activity: &str) -> (r: Option<
    &'a Vec<EnvDependency>,
>)
    ensures
        match r {
            Some(d) => {
                let i = first_index(activities@, activity@);
                let per_project = activities@[i].1.per_project@;
                let j = first_index(per_project, "global"@);
                &&& 0 <= i < activities@.len()
                &&& 0 <= j < per_project.len()
                &&& *d == per_project[j].1
            },
            None => first_index(activities@, activity@) < 0 || first_index(
                activities@[first_index(activities@, activity@)].1.per_project@,
                "global"@,
            ) < 0,
        },
{
    let i = find_first(activities, activity)?;
    let j = find_first(&activities[i].1.per_project, "global")?;
    Some(&activities[i].1.per_project[j].1)
}

} // verus!
