//! Activity configurations: which versions of which candidates a project
//! needs during an activity, read from JSON files that may hold `//` comments.
use vstd::prelude::*;
use crate::assoc::{
    assoc_insert, find_first, first_index, insert_entry, keyed_view, keys_unique,
    lemma_keyed_view_insert,
};
use crate::json::{has_long_fraction, json_parse, long_fraction, parse_json, JsonData};
use crate::text::{
    chars_of, join_strs, join_with, split_on, split_str, starts_with, str_eq, string_of_range,
    trim_start, trim_start_spec, views,
};

verus! {

broadcast use vstd::seq_lib::group_seq_properties;

/// A line whose first non-blank characters are `//`.
pub open spec fn is_comment_line(line: Seq<char>) -> bool {
    "//"@.is_prefix_of(trim_start_spec(line))
}

/// Lines that are not comment lines.
pub open spec fn not_comment() -> spec_fn(Seq<char>) -> bool {
    |line: Seq<char>| !is_comment_line(line)
}

/// The text without its comment lines.
pub open spec fn without_comments(file: Seq<char>) -> Seq<char> {
    join_with(split_on(file, '\n').filter(not_comment()), '\n')
}

/// Drops every line whose first non-blank characters are `//`.
pub fn filter_comments(file: String) -> (r: String)
    ensures
        r@ == without_comments(file@),
{
    let lines = split_str(file.as_str(), '\n');
    let mut kept: Vec<String> = Vec::new();
    let mut i: usize = 0;
    while i < lines.len()
        invariant
            i <= lines@.len(),
            views(lines@) == split_on(file@, '\n'),
            views(kept@) == views(lines@).take(i as int).filter(not_comment()),
        decreases lines@.len() - i,
    {
        let ghost pre = views(lines@).take(i as int);
        let ghost k0 = kept@;
        let trimmed = trim_start(lines[i].as_str());
        if !starts_with(trimmed.as_str(), "//") {
            kept.push(lines[i].clone());
            assert(views(kept@) =~= views(k0).push(lines@[i as int]@));
        }
        i = i + 1;
        proof {
            let e = lines@[i - 1]@;
            assert(views(lines@).take(i as int) =~= pre.push(e));
            pre.lemma_filter_push(e, not_comment());
        }
    }
    assert(views(lines@).take(i as int) =~= views(lines@));
    join_strs(&kept, '\n')
}

/// A text without comment lines is left as it is.
pub proof fn law_comment_free_unchanged(file: Seq<char>)
    requires
        forall|i: int|
            0 <= i < split_on(file, '\n').len() ==> !is_comment_line(#[trigger] split_on(file, '\n')[i]),
    ensures
        without_comments(file) == file,
{
    let lines = split_on(file, '\n');
    assert forall|i: int| 0 <= i < lines.len() implies not_comment()(#[trigger] lines[i]) by {}
    crate::use_sdkit::lemma_filter_all(lines, not_comment());
    crate::text::lemma_join_split(file, '\n');
}

/// Dropping the comment lines of a text that has already lost them changes nothing.
pub proof fn law_without_comments_idempotent(file: Seq<char>)
    ensures
        without_comments(without_comments(file)) == without_comments(file),
{
    let lines = split_on(file, '\n');
    let kept = lines.filter(not_comment());
    let once = without_comments(file);
    if kept.len() == 0 {
        assert(once =~= Seq::<char>::empty());
        let blank = seq![Seq::<char>::empty()];
        assert(split_on(once, '\n') =~= blank);
        assert(trim_start_spec(Seq::<char>::empty()) =~= Seq::<char>::empty());
        reveal_strlit("//");
        assert(not_comment()(blank[0]));
        crate::use_sdkit::lemma_filter_all(blank, not_comment());
    } else {
        crate::text::lemma_split_free_of(file, '\n');
        crate::use_sdkit::lemma_filter_free(lines, not_comment(), '\n');
        crate::text::lemma_split_join(kept, '\n');
        crate::use_sdkit::lemma_filter_passes(lines, not_comment());
        crate::use_sdkit::lemma_filter_all(kept, not_comment());
    }
}

/// The entries of a JSON object, in order; none for any other value.
pub open spec fn entries_of(j: JsonData) -> Seq<(String, JsonData)> {
    match j {
        JsonData::Object(e) => e@,
        _ => Seq::empty(),
    }
}

/// `j[key]`: the value of the first entry with that key, `null` when there is none.
pub open spec fn field(j: JsonData, key: Seq<char>) -> JsonData {
    let e = entries_of(j);
    let i = first_index(e, key);
    if i >= 0 {
        e[i].1
    } else {
        JsonData::Null
    }
}

/// The text of a JSON string (what `take_string` gives).
pub open spec fn text_value(j: JsonData) -> Option<Seq<char>> {
    match j {
        JsonData::Str(s) => Some(s@),
        _ => None,
    }
}

/// Every entry of the object has a string value.
pub open spec fn deps_are_texts(j: JsonData) -> bool {
    forall|i: int|
        0 <= i < entries_of(j).len() ==> (#[trigger] text_value(entries_of(j)[i].1)) is Some
}

/// The dependencies an object lists: each key with its string value.
pub open spec fn dep_pairs(j: JsonData) -> Seq<(Seq<char>, Seq<char>)> {
    entries_of(j).map_values(|e: (String, JsonData)| (e.0@, text_value(e.1)->0))
}

/// A version of a candidate that something depends on.
pub struct EnvDependency {
    pub candidate: String,
    pub version: String,
}

/// Dependencies as pairs of candidate and version.
pub open spec fn deps_view(d: Seq<EnvDependency>) -> Seq<(Seq<char>, Seq<char>)> {
    d.map_values(|x: EnvDependency| (x.candidate@, x.version@))
}

/// Reads an object of `candidate: version` entries. Every value must be a string.
pub fn parse_env_dep_list(j: &JsonData) -> (r: Vec<EnvDependency>)
    requires
        deps_are_texts(*j),
    ensures
        deps_view(r@) == dep_pairs(*j),
{
    let mut r: Vec<EnvDependency> = Vec::new();
    match j {
        JsonData::Object(entries) => {
            let mut i: usize = 0;
            while i < entries.len()
                invariant
                    i <= entries@.len(),
                    *j == JsonData::Object(*entries),
                    deps_are_texts(*j),
                    deps_view(r@) == dep_pairs(*j).take(i as int),
                decreases entries@.len() - i,
            {
                assert(text_value(entries_of(*j)[i as int].1) is Some);
                match &entries[i].1 {
                    JsonData::Str(v) => {
                        let ghost r0 = r@;
                        r.push(EnvDependency { candidate: entries[i].0.clone(), version: v.clone() });
                        i = i + 1;
                        assert(deps_view(r@) =~= dep_pairs(*j).take(i as int)) by {
                            assert(deps_view(r@) =~= deps_view(r0).push(
                                dep_pairs(*j)[i - 1],
                            ));
                        }
                    },
                    _ => {
                        proof {
                            assert(false);
                        }
                    },
                }
            }
            assert(dep_pairs(*j).take(i as int) =~= dep_pairs(*j));
        },
        _ => {
            assert(deps_view(r@) =~= dep_pairs(*j));
        },
    }
    r
}

/// The value of `key` in `j`, `None` standing for `null` when the key is absent.
fn field_ref<'a>(j: &'a JsonData, key: &str) -> (r: Option<&'a JsonData>)
    ensures
        match r {
            Some(v) => *v == field(*j, key@),
            None => field(*j, key@) == JsonData::Null,
        },
{
    match j {
        JsonData::Object(entries) => match find_first(entries, key) {
            Some(i) => Some(&entries[i].1),
            None => None,
        },
        _ => None,
    }
}

/// Whether every entry of the object has a string value.
fn all_texts(j: &JsonData) -> (r: bool)
    ensures
        r == deps_are_texts(*j),
{
    match j {
        JsonData::Object(entries) => {
            let mut i: usize = 0;
            while i < entries.len()
                invariant
                    i <= entries@.len(),
                    *j == JsonData::Object(*entries),
                    forall|k: int| 0 <= k < i ==> (#[trigger] text_value(entries_of(*j)[k].1)) is Some,
                decreases entries@.len() - i,
            {
                match &entries[i].1 {
                    JsonData::Str(_) => {},
                    _ => {
                        assert(text_value(entries_of(*j)[i as int].1) is None);
                        return false;
                    },
                }
                i = i + 1;
            }
            true
        },
        _ => true,
    }
}

/// Dependency tables: each key's dependencies.
pub open spec fn deps_of() -> spec_fn(Vec<EnvDependency>) -> Seq<(Seq<char>, Seq<char>)> {
    |d: Vec<EnvDependency>| deps_view(d@)
}

/// The map that a dependency table stands for.
pub open spec fn table_view(t: Seq<(String, Vec<EnvDependency>)>) -> Map<
    Seq<char>,
    Seq<(Seq<char>, Seq<char>)>,
> {
    keyed_view(t, deps_of())
}

/// The dependency table that an object of dependency objects describes; a later
/// entry with the same key wins.
pub open spec fn json_table(e: Seq<(String, JsonData)>) -> Map<Seq<char>, Seq<(Seq<char>, Seq<char>)>>
    decreases e.len(),
{
    if e.len() == 0 {
        Map::empty()
    } else {
        json_table(e.drop_last()).insert(e.last().0@, dep_pairs(e.last().1))
    }
}

/// Every entry of the object is an object of string values.
pub open spec fn tables_are_texts(j: JsonData) -> bool {
    forall|i: int| 0 <= i < entries_of(j).len() ==> deps_are_texts(#[trigger] entries_of(j)[i].1)
}

/// Whether every entry of the object is an object of string values.
fn all_tables_texts(j: &JsonData) -> (r: bool)
    ensures
        r == tables_are_texts(*j),
{
    match j {
        JsonData::Object(entries) => {
            let mut i: usize = 0;
            while i < entries.len()
                invariant
                    i <= entries@.len(),
                    *j == JsonData::Object(*entries),
                    forall|k: int| 0 <= k < i ==> deps_are_texts(#[trigger] entries_of(*j)[k].1),
                decreases entries@.len() - i,
            {
                if !all_texts(&entries[i].1) {
                    assert(!deps_are_texts(entries_of(*j)[i as int].1));
                    return false;
                }
                i = i + 1;
            }
            true
        },
        _ => true,
    }
}

/// Reads an object whose entries are objects of `candidate: version` entries.
fn parse_dep_table(j: &JsonData) -> (t: Vec<(String, Vec<EnvDependency>)>)
    requires
        tables_are_texts(*j),
    ensures
        keys_unique(t@),
        table_view(t@) == json_table(entries_of(*j)),
{
    let mut t: Vec<(String, Vec<EnvDependency>)> = Vec::new();
    match j {
        JsonData::Object(entries) => {
            let mut i: usize = 0;
            while i < entries.len()
                invariant
                    i <= entries@.len(),
                    *j == JsonData::Object(*entries),
                    tables_are_texts(*j),
                    keys_unique(t@),
                    table_view(t@) == json_table(entries@.take(i as int)),
                decreases entries@.len() - i,
            {
                assert(deps_are_texts(entries_of(*j)[i as int].1));
                let deps = parse_env_dep_list(&entries[i].1);
                let key = entries[i].0.clone();
                proof {
                    lemma_keyed_view_insert(t@, key, deps, deps_of());
                    assert(entries@.take(i + 1).drop_last() =~= entries@.take(i as int));
                }
                insert_entry(&mut t, key, deps);
                i = i + 1;
            }
            assert(entries@.take(i as int) =~= entries@);
        },
        _ => {},
    }
    t
}

/// A project and the dependencies it has in each activity.
pub struct Project {
    pub id: String,
    pub per_activity: Vec<(String, Vec<EnvDependency>)>,
}

impl Project {
    /// No activity is listed twice.
    pub open spec fn wf(&self) -> bool {
        keys_unique(self.per_activity@)
    }
}

/// Why a configuration could not be read.
#[derive(PartialEq, Eq, Structural, Clone, Copy, Debug)]
pub enum ConfigError {
    /// The text is no JSON document.
    NotJson,
    /// The project configuration has no string `projectId`.
    MissingProjectId,
    /// A dependency's version is not a string.
    VersionNotText,
    /// A number has more fraction digits than the JSON parser can count.
    FractionTooLong,
}

/// The dependency table of a project configuration, per activity.
pub open spec fn project_table(j: JsonData) -> Map<Seq<char>, Seq<(Seq<char>, Seq<char>)>> {
    json_table(entries_of(field(j, "activities"@)))
}

/// Reads a project configuration: `projectId` and the `activities` table. A
/// missing string `projectId` is reported first; then a dependency version that
/// is not a string.
pub fn project_from_json(j: &JsonData) -> (r: Result<Project, ConfigError>)
    ensures
        match text_value(field(*j, "projectId"@)) {
            None => r matches Err(ConfigError::MissingProjectId),
            Some(id) => if tables_are_texts(field(*j, "activities"@)) {
                r matches Ok(p) && p.id@ == id && p.wf() && table_view(p.per_activity@)
                    == project_table(*j)
            } else {
                r matches Err(ConfigError::VersionNotText)
            },
        },
{
    let id = match field_ref(j, "projectId") {
        Some(JsonData::Str(s)) => s.clone(),
        _ => {
            return Err(ConfigError::MissingProjectId);
        },
    };
    let per_activity = match field_ref(j, "activities") {
        Some(a) => {
            if !all_tables_texts(a) {
                return Err(ConfigError::VersionNotText);
            }
            parse_dep_table(a)
        },
        None => {
            let t: Vec<(String, Vec<EnvDependency>)> = Vec::new();
            assert(table_view(t@) =~= json_table(entries_of(JsonData::Null)));
            t
        },
    };
    Ok(Project { id, per_activity })
}

/// Reads the configuration file of a project, if there is one (`contents` is
/// `None` when the project has no configuration file). Comment lines are dropped
/// first; a number whose fraction is longer than the parser can count (see
/// [`long_fraction`]) is refused before parsing.
/// Where the file misses a string `projectId` that is the error; else a
/// dependency version that is not a string is one.
pub fn get_project_conf(contents: Option<String>) -> (r: Result<Option<Project>, ConfigError>)
    ensures
        match contents {
            None => r matches Ok(None),
            Some(t) => if long_fraction(without_comments(t@)) {
                r matches Err(ConfigError::FractionTooLong)
            } else {
                match json_parse(without_comments(t@)) {
                    None => r matches Err(ConfigError::NotJson),
                    Some(j) => match text_value(field(j, "projectId"@)) {
                        None => r matches Err(ConfigError::MissingProjectId),
                        Some(id) => if tables_are_texts(field(j, "activities"@)) {
                            r matches Ok(Some(p)) && p.id@ == id && p.wf() && table_view(
                                p.per_activity@,
                            ) == project_table(j)
                        } else {
                            r matches Err(ConfigError::VersionNotText)
                        },
                    },
                }
            },
        },
{
    let text = match contents {
        Some(t) => t,
        None => {
            return Ok(None);
        },
    };
    let text = filter_comments(text);
    if has_long_fraction(text.as_str()) {
        return Err(ConfigError::FractionTooLong);
    }
    let j = match parse_json(text.as_str()) {
        Some(j) => j,
        None => {
            return Err(ConfigError::NotJson);
        },
    };
    match project_from_json(&j) {
        Ok(p) => Ok(Some(p)),
        Err(e) => Err(e),
    }
}

/// An activity and the dependencies each project has in it.
pub struct Activity {
    pub id: String,
    pub per_project: Vec<(String, Vec<EnvDependency>)>,
}

/// Activities seen as their dependency tables.
pub open spec fn activity_table() -> spec_fn(Activity) -> Map<Seq<char>, Seq<(Seq<char>, Seq<char>)>> {
    |a: Activity| table_view(a.per_project@)
}

/// The map that a list of activities stands for: each id with its table.
pub open spec fn activities_view(acts: Seq<(String, Activity)>) -> Map<
    Seq<char>,
    Map<Seq<char>, Seq<(Seq<char>, Seq<char>)>>,
> {
    keyed_view(acts, activity_table())
}

/// Each activity is listed under its own id.
pub open spec fn ids_match(acts: Seq<(String, Activity)>) -> bool {
    forall|i: int| 0 <= i < acts.len() ==> (#[trigger] acts[i]).1.id@ == acts[i].0@
}

/// Every activity's `projectDeps` is an object of objects of string values.
pub open spec fn activities_ok(j: JsonData) -> bool {
    forall|i: int|
        0 <= i < entries_of(j).len() ==> tables_are_texts(
            field(#[trigger] entries_of(j)[i].1, "projectDeps"@),
        )
}

/// `m` with the activities that the entries of a global configuration describe;
/// a later activity with the same id wins.
pub open spec fn with_activities(
    m: Map<Seq<char>, Map<Seq<char>, Seq<(Seq<char>, Seq<char>)>>>,
    e: Seq<(String, JsonData)>,
) -> Map<Seq<char>, Map<Seq<char>, Seq<(Seq<char>, Seq<char>)>>>
    decreases e.len(),
{
    if e.len() == 0 {
        m
    } else {
        with_activities(m, e.drop_last()).insert(
            e.last().0@,
            json_table(entries_of(field(e.last().1, "projectDeps"@))),
        )
    }
}

/// The activities that the global configuration files describe, read in order:
/// the first file that holds a number whose fraction is longer than the parser
/// can count, that is no JSON document, or that holds a dependency version that
/// is not a string, decides the error.
pub open spec fn activities_from_files(files: Seq<Seq<char>>) -> Result<
    Map<Seq<char>, Map<Seq<char>, Seq<(Seq<char>, Seq<char>)>>>,
    ConfigError,
>
    decreases files.len(),
{
    if files.len() == 0 {
        Ok(Map::empty())
    } else {
        match activities_from_files(files.drop_last()) {
            Err(e) => Err(e),
            Ok(m) => if long_fraction(without_comments(files.last())) {
                Err(ConfigError::FractionTooLong)
            } else {
                match json_parse(without_comments(files.last())) {
                    None => Err(ConfigError::NotJson),
                    Some(j) => if activities_ok(j) {
                        Ok(with_activities(m, entries_of(j)))
                    } else {
                        Err(ConfigError::VersionNotText)
                    },
                }
            },
        }
    }
}

/// Adds the activities of one parsed global configuration; a later activity
/// with the same id replaces an earlier one. When some dependency version is not
/// a string, nothing is added and that is the error.
pub fn add_activities(acts: &mut Vec<(String, Activity)>, j: &JsonData) -> (r: Result<(), ConfigError>)
    requires
        keys_unique(old(acts)@),
        ids_match(old(acts)@),
    ensures
        keys_unique(final(acts)@),
        ids_match(final(acts)@),
        if activities_ok(*j) {
            &&& r is Ok
            &&& activities_view(final(acts)@) == with_activities(
                activities_view(old(acts)@),
                entries_of(*j),
            )
        } else {
            &&& r == Err::<(), ConfigError>(ConfigError::VersionNotText)
            &&& final(acts)@ == old(acts)@
        },
{
    if !all_activities_ok(j) {
        return Err(ConfigError::VersionNotText);
    }
    let ghost start = activities_view(acts@);
    match j {
        JsonData::Object(entries) => {
            let mut i: usize = 0;
            while i < entries.len()
                invariant
                    i <= entries@.len(),
                    *j == JsonData::Object(*entries),
                    activities_ok(*j),
                    keys_unique(acts@),
                    ids_match(acts@),
                    activities_view(acts@) == with_activities(start, entries@.take(i as int)),
                decreases entries@.len() - i,
            {
                assert(tables_are_texts(field(entries_of(*j)[i as int].1, "projectDeps"@)));
                let per_project = match field_ref(&entries[i].1, "projectDeps") {
                    Some(d) => parse_dep_table(d),
                    None => {
                        let t: Vec<(String, Vec<EnvDependency>)> = Vec::new();
                        assert(table_view(t@) =~= json_table(entries_of(JsonData::Null)));
                        t
                    },
                };
                let activity = Activity { id: entries[i].0.clone(), per_project };
                let key = entries[i].0.clone();
                proof {
                    lemma_keyed_view_insert(acts@, key, activity, activity_table());
                    assert(entries@.take(i + 1).drop_last() =~= entries@.take(i as int));
                }
                let ghost a0 = acts@;
                insert_entry(acts, key, activity);
                proof {
                    assert forall|k: int| 0 <= k < acts@.len() implies (#[trigger] acts@[k]).1.id@
                        == acts@[k].0@ by {
                        if k < a0.len() && acts@[k] == a0[k] {
                        } else {
                        }
                    }
                }
                i = i + 1;
            }
            assert(entries@.take(i as int) =~= entries@);
        },
        _ => {},
    }
    Ok(())
}

/// Reads the global activity configuration files, in the order given (their
/// texts; comment lines are dropped first).
pub fn get_global_activities(files: &Vec<String>) -> (r: Result<Vec<(String, Activity)>, ConfigError>)
    ensures
        match r {
            Ok(a) => {
                &&& activities_from_files(views(files@)) == Ok::<
                    Map<Seq<char>, Map<Seq<char>, Seq<(Seq<char>, Seq<char>)>>>,
                    ConfigError,
                >(activities_view(a@))
                &&& keys_unique(a@)
                &&& ids_match(a@)
            },
            Err(e) => activities_from_files(views(files@)) == Err::<
                Map<Seq<char>, Map<Seq<char>, Seq<(Seq<char>, Seq<char>)>>>,
                ConfigError,
            >(e),
        },
{
    let mut acts: Vec<(String, Activity)> = Vec::new();
    let mut i: usize = 0;
    assert(activities_view(acts@) =~= Map::empty());
    while i < files.len()
        invariant
            i <= files@.len(),
            keys_unique(acts@),
            ids_match(acts@),
            activities_from_files(views(files@).take(i as int)) == Ok::<
                Map<Seq<char>, Map<Seq<char>, Seq<(Seq<char>, Seq<char>)>>>,
                ConfigError,
            >(activities_view(acts@)),
        decreases files@.len() - i,
    {
        let ghost upto = views(files@).take(i + 1);
        assert(upto.drop_last() =~= views(files@).take(i as int));
        assert(upto.last() == files@[i as int]@);
        let text = filter_comments(files[i].clone());
        if has_long_fraction(text.as_str()) {
            proof {
                lemma_errors_stay(views(files@), i + 1);
            }
            return Err(ConfigError::FractionTooLong);
        }
        let j = match parse_json(text.as_str()) {
            Some(j) => j,
            None => {
                proof {
                    lemma_errors_stay(views(files@), i + 1);
                }
                return Err(ConfigError::NotJson);
            },
        };
        if let Err(e) = add_activities(&mut acts, &j) {
            proof {
                lemma_errors_stay(views(files@), i + 1);
            }
            return Err(e);
        }
        i = i + 1;
    }
    assert(views(files@).take(i as int) =~= views(files@));
    Ok(acts)
}

/// An error on the first `n` files is the error on all of them.
proof fn lemma_errors_stay(files: Seq<Seq<char>>, n: int)
    requires
        0 <= n <= files.len(),
        activities_from_files(files.take(n)) is Err,
    ensures
        activities_from_files(files) == activities_from_files(files.take(n)),
    decreases files.len() - n,
{
    if n < files.len() {
        assert(files.take(n + 1).drop_last() =~= files.take(n));
        lemma_errors_stay(files, n + 1);
    } else {
        assert(files.take(n) =~= files);
    }
}

/// Whether every activity's `projectDeps` is an object of objects of string values.
fn all_activities_ok(j: &JsonData) -> (r: bool)
    ensures
        r == activities_ok(*j),
{
    match j {
        JsonData::Object(entries) => {
            let mut i: usize = 0;
            while i < entries.len()
                invariant
                    i <= entries@.len(),
                    *j == JsonData::Object(*entries),
                    forall|k: int|
                        0 <= k < i ==> tables_are_texts(
                            field(#[trigger] entries_of(*j)[k].1, "projectDeps"@),
                        ),
                decreases entries@.len() - i,
            {
                let ok = match field_ref(&entries[i].1, "projectDeps") {
                    Some(d) => all_tables_texts(d),
                    None => true,
                };
                if !ok {
                    assert(!tables_are_texts(field(entries_of(*j)[i as int].1, "projectDeps"@)));
                    return false;
                }
                i = i + 1;
            }
            true
        },
        _ => true,
    }
}

/// The extensions of activity configuration files: `json`, and `jsonc` for
/// files with comments.
pub open spec fn is_config_extension(ext: Seq<char>) -> bool {
    ext == "json"@ || ext == "jsonc"@
}

/// Whether a file in the configuration directory is an activity configuration:
/// its extension (what follows the last dot of a name that does not only start
/// with one, as `Path::extension` takes it) is `json` or `jsonc`.
pub open spec fn is_config_name(name: Seq<char>) -> bool {
    exists|k: int|
        0 < k < name.len() && name[k] == '.' && (forall|m: int| k < m < name.len() ==> name[m]
            != '.') && is_config_extension(name.skip(k + 1))
}

/// Whether a file in the configuration directory is an activity configuration
/// (see [`is_config_name`]).
pub fn is_activity_config_file(file_name: &str) -> (r: bool)
    ensures
        r == is_config_name(file_name@),
{
    let cs = chars_of(file_name);
    let mut k: usize = cs.len();
    while k > 0 && cs[k - 1] != '.'
        invariant
            k <= cs@.len(),
            cs@ == file_name@,
            forall|m: int| k <= m < cs@.len() ==> cs@[m] != '.',
        decreases k,
    {
        k = k - 1;
    }
    // now `k - 1` is the last dot, if `k > 0`
    if k <= 1 {
        proof {
            if is_config_name(file_name@) {
                let w = choose|w: int|
                    0 < w < file_name@.len() && file_name@[w] == '.' && (forall|m: int|
                        w < m < file_name@.len() ==> file_name@[m] != '.') && is_config_extension(
                        file_name@.skip(w + 1),
                    );
                if k == 1 {
                    assert(file_name@[w] == '.');
                }
            }
        }
        return false;
    }
    let ext = string_of_range(&cs, k, cs.len());
    let r = str_eq(ext.as_str(), "json") || str_eq(ext.as_str(), "jsonc");
    proof {
        let d = k - 1;
        assert(file_name@.skip(d + 1) =~= cs@.subrange(k as int, cs@.len() as int));
        if is_config_name(file_name@) {
            let w = choose|w: int|
                0 < w < file_name@.len() && file_name@[w] == '.' && (forall|m: int|
                    w < m < file_name@.len() ==> file_name@[m] != '.') && is_config_extension(
                    file_name@.skip(w + 1),
                );
            if w < d {
                assert(file_name@[d] == '.');
            }
            assert(w == d);
        }
        if r {
            assert(file_name@[d] == '.');
        }
    }
    r
}

} // verus!
