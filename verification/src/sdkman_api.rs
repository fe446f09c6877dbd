//! Reading what the SDKMAN! service answers: the list of candidates and the
//! versions of a candidate.
use vstd::prelude::*;
use crate::matching::{find_matches, group_text, named_group, regex_matches, RegexMatches};
use crate::text::{join_strs, join_with, split_on, split_str, str_eq, trim, trim_spec, views};
use crate::versions::{
    adjacent_in_order, in_order, level_with, same_version, sort_versions, SdkManCandidateVersion,
};

verus! {

/// The pattern of one candidate in the service's candidate list.
pub const CANDIDATE_HEADER: &'static str = r"(?x)
        -+?\n                     # candidate separator
        (?P<readable_name>[^(]*?) # readable candidate name
        \(                        # version brackets open
        (?P<version>[^(]+?)       # version
        \)                        # version brackets close
        \s+?                      # many-many spaces
        (?P<homepage>\w[^\n]+?)   # homepage link
        \n\n                      # empty line
        (?P<desc>(?:.|\n)*?)      # description
        \n\n                      # empty line
        \s*?                      # many-many spaces, again
        \$\ sdk\ install\         # sdk install tip, we only need the
        (?P<name>[^\n]*?)\n       # actual candidate name";

/// The pattern of one version in the service's version list.
pub const VERSION_LINE: &'static str = r"(?x)
        (?:(?P<selected>>)|\s)                   # maybe `> selected` otherwise space
        \s                                       # space
        (?:(?P<installed>\*)|(?P<local>\+)|\s)   # maybe `* installed` or `+ locally installed` otherwise space
        \s                                       # space
        (?P<version>\w[^\ ]*)                    # version identifier";

/// A candidate as the service describes it.
pub struct SdkManCandidate {
    pub readable_name: String,
    pub version: String,
    pub homepage: String,
    pub description: String,
    pub candidate_name: String,
}

impl SdkManCandidate {
    /// How the candidate is shown: name, readable name, version, homepage, then
    /// the description on the next line.
    pub fn to_display_string(&self) -> (r: String)
        ensures
            r@ == self.candidate_name@ + " -> "@ + self.readable_name@ + " "@ + self.version@
                + " ("@ + self.homepage@ + ")\n"@ + self.description@,
    {
        let mut r = self.candidate_name.clone();
        r.append(" -> ");
        r.append(self.readable_name.as_str());
        r.append(" ");
        r.append(self.version.as_str());
        r.append(" (");
        r.append(self.homepage.as_str());
        r.append(")\n");
        r.append(self.description.as_str());
        r
    }
}

/// The fields of a candidate: readable name, version, homepage, description, name.
pub type CandidateView = (Seq<char>, Seq<char>, Seq<char>, Seq<char>, Seq<char>);

/// The fields of a candidate.
pub open spec fn candidate_view(c: SdkManCandidate) -> CandidateView {
    (c.readable_name@, c.version@, c.homepage@, c.description@, c.candidate_name@)
}

/// The fields that one match gives, when all five groups took part.
pub open spec fn candidate_fields(names: Seq<Option<Seq<char>>>, m: Seq<Option<Seq<char>>>) -> Option<
    CandidateView,
> {
    match (
        named_group(names, m, "readable_name"@),
        named_group(names, m, "version"@),
        named_group(names, m, "homepage"@),
        named_group(names, m, "desc"@),
        named_group(names, m, "name"@),
    ) {
        (Some(a), Some(b), Some(c), Some(d), Some(e)) => Some((a, b, c, d, e)),
        _ => None,
    }
}

/// The candidates that the matches give, in order: `None` when some match
/// lacks a group.
pub open spec fn candidates_spec(
    names: Seq<Option<Seq<char>>>,
    ms: Seq<Seq<Option<Seq<char>>>>,
) -> Option<Seq<CandidateView>> {
    if forall|i: int| 0 <= i < ms.len() ==> (#[trigger] candidate_fields(names, ms[i])) is Some {
        Some(ms.map_values(|m: Seq<Option<Seq<char>>>| candidate_fields(names, m)->0))
    } else {
        None
    }
}

/// The fields of a list of candidates.
pub open spec fn candidates_view(cs: Seq<SdkManCandidate>) -> Seq<CandidateView> {
    cs.map_values(|c: SdkManCandidate| candidate_view(c))
}

/// The candidates that the matches of [`CANDIDATE_HEADER`] give.
pub fn candidates_from_matches(m: &RegexMatches) -> (r: Option<Vec<SdkManCandidate>>)
    ensures
        match r {
            Some(cs) => candidates_spec(m.group_names.deep_view(), m.matches.deep_view())
                == Some(candidates_view(cs@)),
            None => candidates_spec(m.group_names.deep_view(), m.matches.deep_view()) is None,
        },
{
    let ghost names = m.group_names.deep_view();
    let ghost ms = m.matches.deep_view();
    let mut out: Vec<SdkManCandidate> = Vec::new();
    let mut i: usize = 0;
    while i < m.matches.len()
        invariant
            i <= m.matches@.len(),
            names == m.group_names.deep_view(),
            ms == m.matches.deep_view(),
            ms.len() == m.matches@.len(),
            out@.len() == i,
            forall|k: int|
                0 <= k < i ==> candidate_fields(names, ms[k]) == Some(
                    candidate_view(#[trigger] out@[k]),
                ),
        decreases m.matches@.len() - i,
    {
        let g = &m.matches[i];
        assert(ms[i as int] == g.deep_view());
        let a = group_text(&m.group_names, g, "readable_name");
        let b = group_text(&m.group_names, g, "version");
        let c = group_text(&m.group_names, g, "homepage");
        let d = group_text(&m.group_names, g, "desc");
        let e = group_text(&m.group_names, g, "name");
        match (a, b, c, d, e) {
            (Some(a), Some(b), Some(c), Some(d), Some(e)) => {
                let ghost o0 = out@;
                out.push(
                    SdkManCandidate {
                        readable_name: a,
                        version: b,
                        homepage: c,
                        description: d,
                        candidate_name: e,
                    },
                );
                proof {
                    assert forall|k: int|
                        0 <= k < i + 1 implies candidate_fields(names, ms[k]) == Some(
                        candidate_view(#[trigger] out@[k]),
                    ) by {
                        if k < i {
                            assert(out@[k] == o0[k]);
                        }
                    }
                }
            },
            _ => {
                assert(candidate_fields(names, ms[i as int]) is None);
                return None;
            },
        }
        i = i + 1;
    }
    proof {
        assert forall|k: int| 0 <= k < ms.len() implies (#[trigger] candidate_fields(
            names,
            ms[k],
        )) is Some by {
            assert(candidate_fields(names, ms[k]) == Some(candidate_view(out@[k])));
        }
        assert(candidates_spec(names, ms) == Some(candidates_view(out@))) by {
            assert(ms.map_values(|g: Seq<Option<Seq<char>>>| candidate_fields(names, g)->0)
                =~= candidates_view(out@));
        }
    }
    Some(out)
}

/// Reads the service's list of candidates: `None` when the list cannot be read
/// (the pattern not read, or a match without one of its groups).
pub fn parse_candidates(body: &str) -> (r: Option<Vec<SdkManCandidate>>)
    ensures
        match regex_matches(CANDIDATE_HEADER@, body@) {
            None => r is None,
            Some((names, ms)) => match candidates_spec(names, ms) {
                None => r is None,
                Some(v) => r matches Some(cs) && candidates_view(cs@) == v,
            },
        },
{
    match find_matches(CANDIDATE_HEADER, body) {
        Some(m) => candidates_from_matches(&m),
        None => None,
    }
}

/// The fields of a version entry: version, identifier, installed, local only, selected.
pub type VersionView = (Seq<char>, Seq<char>, bool, bool, bool);

/// The fields of a version entry.
pub open spec fn version_view(v: SdkManCandidateVersion) -> VersionView {
    (v.version@, v.identifier@, v.installed, v.local_only, v.selected)
}

/// The fields of a list of version entries.
pub open spec fn versions_view(vs: Seq<SdkManCandidateVersion>) -> Seq<VersionView> {
    vs.map_values(|v: SdkManCandidateVersion| version_view(v))
}

/// The entry that one match of [`VERSION_LINE`] gives, when its version took part.
pub open spec fn version_fields(names: Seq<Option<Seq<char>>>, m: Seq<Option<Seq<char>>>) -> Option<
    VersionView,
> {
    match named_group(names, m, "version"@) {
        None => None,
        Some(v) => Some(
            (
                v,
                v,
                named_group(names, m, "installed"@) is Some,
                named_group(names, m, "local"@) is Some,
                named_group(names, m, "selected"@) is Some,
            ),
        ),
    }
}

/// The entries that the matches give, in order: `None` when one lacks its version.
pub open spec fn versions_spec(
    names: Seq<Option<Seq<char>>>,
    ms: Seq<Seq<Option<Seq<char>>>>,
) -> Option<Seq<VersionView>> {
    if forall|i: int| 0 <= i < ms.len() ==> (#[trigger] version_fields(names, ms[i])) is Some {
        Some(ms.map_values(|m: Seq<Option<Seq<char>>>| version_fields(names, m)->0))
    } else {
        None
    }
}

/// The entries that the matches of [`VERSION_LINE`] give, in order.
pub fn versions_from_matches(m: &RegexMatches) -> (r: Option<Vec<SdkManCandidateVersion>>)
    ensures
        match r {
            Some(vs) => versions_spec(m.group_names.deep_view(), m.matches.deep_view()) == Some(
                versions_view(vs@),
            ),
            None => versions_spec(m.group_names.deep_view(), m.matches.deep_view()) is None,
        },
{
    let ghost names = m.group_names.deep_view();
    let ghost ms = m.matches.deep_view();
    let mut out: Vec<SdkManCandidateVersion> = Vec::new();
    let mut i: usize = 0;
    while i < m.matches.len()
        invariant
            i <= m.matches@.len(),
            names == m.group_names.deep_view(),
            ms == m.matches.deep_view(),
            ms.len() == m.matches@.len(),
            out@.len() == i,
            forall|k: int|
                0 <= k < i ==> version_fields(names, ms[k]) == Some(
                    version_view(#[trigger] out@[k]),
                ),
        decreases m.matches@.len() - i,
    {
        let g = &m.matches[i];
        assert(ms[i as int] == g.deep_view());
        let version = match group_text(&m.group_names, g, "version") {
            Some(v) => v,
            None => {
                assert(version_fields(names, ms[i as int]) is None);
                return None;
            },
        };
        let installed = group_text(&m.group_names, g, "installed").is_some();
        let local_only = group_text(&m.group_names, g, "local").is_some();
        let selected = group_text(&m.group_names, g, "selected").is_some();
        let ghost o0 = out@;
        out.push(
            SdkManCandidateVersion {
                identifier: version.clone(),
                version,
                installed,
                local_only,
                selected,
            },
        );
        proof {
            assert forall|k: int|
                0 <= k < i + 1 implies version_fields(names, ms[k]) == Some(
                version_view(#[trigger] out@[k]),
            ) by {
                if k < i {
                    assert(out@[k] == o0[k]);
                }
            }
        }
        i = i + 1;
    }
    proof {
        assert forall|k: int| 0 <= k < ms.len() implies (#[trigger] version_fields(
            names,
            ms[k],
        )) is Some by {
            assert(version_fields(names, ms[k]) == Some(version_view(out@[k])));
        }
        assert(ms.map_values(|g: Seq<Option<Seq<char>>>| version_fields(names, g)->0)
            =~= versions_view(out@));
    }
    Some(out)
}

/// `sorted` holds the entries of `entries`, rearranged; entries with the same
/// version text, and entries the listing order puts level, keep their order.
pub open spec fn rearranges(
    sorted: Seq<SdkManCandidateVersion>,
    entries: Seq<VersionView>,
    numeric: bool,
) -> bool {
    exists|u: Seq<SdkManCandidateVersion>|
        {
            &&& versions_view(u) == entries
            &&& #[trigger] u.to_multiset() == sorted.to_multiset()
            &&& forall|k: Seq<char>| #[trigger]
                sorted.filter(same_version(k)) == u.filter(same_version(k))
            &&& forall|k: Seq<char>| #[trigger]
                sorted.filter(level_with(numeric, k)) == u.filter(level_with(numeric, k))
        }
}

/// Reads the service's list of versions of a candidate and sorts it by version
/// text: `None` when the list cannot be read (the pattern not read, or a match
/// without its version).
pub fn parse_versions(body: &str) -> (r: Option<Vec<SdkManCandidateVersion>>)
    ensures
        match regex_matches(VERSION_LINE@, body@) {
            None => r is None,
            Some((names, ms)) => match versions_spec(names, ms) {
                None => r is None,
                Some(v) => r matches Some(out) && rearranges(out@, v, false) && in_order(out@, false),
            },
        },
{
    let m = match find_matches(VERSION_LINE, body) {
        Some(m) => m,
        None => {
            return None;
        },
    };
    let entries = versions_from_matches(&m)?;
    let ghost u = entries@;
    let out = sort_versions(entries, false);
    assert(u.to_multiset() == out@.to_multiset());
    Some(out)
}

/// The cells of one row of the Java version table, each trimmed.
pub open spec fn row_cells(row: Seq<char>) -> Seq<Seq<char>> {
    split_on(row, '|').map_values(|c: Seq<char>| trim_spec(c))
}

/// The entry that a row of the Java table gives: `None` when it has fewer than
/// six cells.
pub open spec fn java_entry(row: Seq<char>) -> Option<VersionView> {
    let cells = row_cells(row);
    if cells.len() < 6 {
        None
    } else {
        Some(
            (
                cells[2],
                cells[5],
                cells[4] == "installed"@,
                cells[4] == "local only"@,
                cells[1] == ">>>"@,
            ),
        )
    }
}

/// The rows of the Java table: the lines without the first five and the last
/// six; `None` when there are fewer than six lines.
pub open spec fn java_rows(body: Seq<char>) -> Option<Seq<Seq<char>>> {
    let lines = split_on(body, '\n');
    if lines.len() < 6 {
        None
    } else if lines.len() - 6 <= 5 {
        Some(Seq::empty())
    } else {
        Some(lines.subrange(5, lines.len() - 6))
    }
}

/// The entries that the Java table gives, in order.
pub open spec fn java_spec(body: Seq<char>) -> Option<Seq<VersionView>> {
    match java_rows(body) {
        None => None,
        Some(rows) => if forall|i: int| 0 <= i < rows.len() ==> (#[trigger] java_entry(rows[i])) is Some {
            Some(rows.map_values(|row: Seq<char>| java_entry(row)->0))
        } else {
            None
        },
    }
}

/// The trimmed cells of one row of the Java table.
fn cells_of(row: &str) -> (r: Vec<String>)
    ensures
        views(r@) == row_cells(row@),
{
    let parts = split_str(row, '|');
    let mut cells: Vec<String> = Vec::new();
    let mut i: usize = 0;
    while i < parts.len()
        invariant
            i <= parts@.len(),
            views(parts@) == split_on(row@, '|'),
            views(cells@) == views(parts@).take(i as int).map_values(|c: Seq<char>| trim_spec(c)),
        decreases parts@.len() - i,
    {
        let ghost c0 = cells@;
        let t = trim(parts[i].as_str());
        cells.push(t);
        i = i + 1;
        proof {
            let f = |c: Seq<char>| trim_spec(c);
            assert(views(cells@) =~= views(c0).push(t@));
            assert(views(parts@).take(i as int) =~= views(parts@).take(i - 1).push(
                parts@[i - 1]@,
            ));
            assert(views(parts@).take(i as int).map_values(f) =~= views(parts@).take(
                i - 1,
            ).map_values(f).push(trim_spec(parts@[i - 1]@)));
        }
    }
    assert(views(parts@).take(i as int) =~= views(parts@));
    cells
}

/// Reads the Java version table that the service answers and sorts it by
/// version, chunk by chunk: `None` when the table cannot be read (fewer than six
/// lines, or a row with fewer than six cells).
pub fn parse_versions_java(body: &str) -> (r: Option<Vec<SdkManCandidateVersion>>)
    ensures
        match java_spec(body@) {
            None => r is None,
            Some(v) => r matches Some(out) && rearranges(out@, v, true) && adjacent_in_order(
                out@,
                true,
            ),
        },
{
    let lines = split_str(body, '\n');
    let n = lines.len();
    assert(split_on(body@, '\n').len() == n);
    if n < 6 {
        return None;
    }
    let ghost rows = java_rows(body@)->0;
    let (from, to) = if n - 6 <= 5 {
        (0, 0)
    } else {
        (5, n - 6)
    };
    assert(rows =~= views(lines@).subrange(from as int, to as int));
    let mut out: Vec<SdkManCandidateVersion> = Vec::new();
    let mut i: usize = from;
    while i < to
        invariant
            from <= i <= to <= lines@.len(),
            rows == views(lines@).subrange(from as int, to as int),
            java_rows(body@) == Some(rows),
            out@.len() == i - from,
            forall|k: int|
                0 <= k < i - from ==> java_entry(rows[k]) == Some(version_view(#[trigger] out@[k])),
        decreases to - i,
    {
        let cells = cells_of(lines[i].as_str());
        assert(rows[i - from] == lines@[i as int]@);
        if cells.len() < 6 {
            assert(java_entry(rows[i - from]) is None);
            assert(!(forall|k: int| 0 <= k < rows.len() ==> (#[trigger] java_entry(rows[k])) is Some));
            return None;
        }
        let ghost o0 = out@;
        let selected = str_eq(cells[1].as_str(), ">>>");
        let installed = str_eq(cells[4].as_str(), "installed");
        let local_only = str_eq(cells[4].as_str(), "local only");
        out.push(
            SdkManCandidateVersion {
                version: cells[2].clone(),
                identifier: cells[5].clone(),
                selected,
                installed,
                local_only,
            },
        );
        proof {
            assert(views(cells@)[2] == cells@[2]@);
            assert(views(cells@)[5] == cells@[5]@);
            assert(views(cells@)[4] == cells@[4]@);
            assert(views(cells@)[1] == cells@[1]@);
            assert forall|k: int|
                0 <= k < i + 1 - from implies java_entry(rows[k]) == Some(
                version_view(#[trigger] out@[k]),
            ) by {
                if k < i - from {
                    assert(out@[k] == o0[k]);
                }
            }
        }
        i = i + 1;
    }
    proof {
        assert forall|k: int| 0 <= k < rows.len() implies (#[trigger] java_entry(rows[k])) is Some by {
            assert(java_entry(rows[k]) == Some(version_view(out@[k])));
        }
        assert(rows.map_values(|row: Seq<char>| java_entry(row)->0) =~= versions_view(out@));
    }
    let ghost u = out@;
    let sorted = sort_versions(out, true);
    assert(versions_view(u) == java_spec(body@)->0 && u.to_multiset() == sorted@.to_multiset());
    Some(sorted)
}

/// The address of the service's list of versions of a candidate.
pub open spec fn versions_url_spec(
    sdkit: Seq<char>,
    os_and_arch: Seq<char>,
    current_ver: Seq<char>,
    installed: Seq<Seq<char>>,
) -> Seq<char> {
    "https://api.sdkman.io/2/candidates/"@ + sdkit + "/"@ + os_and_arch
        + "/versions/list?current="@ + current_ver + "&installed="@ + join_with(installed, ',')
}

/// The address of the service's list of versions of a candidate.
pub fn versions_url(
    sdkit: &str,
    os_and_arch: &str,
    current_ver: &str,
    installed_vers: &Vec<String>,
) -> (r: String)
    ensures
        r@ == versions_url_spec(sdkit@, os_and_arch@, current_ver@, views(installed_vers@)),
{
    let mut r = String::from_str("https://api.sdkman.io/2/candidates/");
    r.append(sdkit);
    r.append("/");
    r.append(os_and_arch);
    r.append("/versions/list?current=");
    r.append(current_ver);
    r.append("&installed=");
    let joined = join_strs(installed_vers, ',');
    r.append(joined.as_str());
    r
}

} // verus!
