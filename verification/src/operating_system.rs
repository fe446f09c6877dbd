//! The platform in the terms of the SDKMAN! service, and the version of an sdkit
//! that `PATH` names.
use vstd::prelude::*;
use crate::matching::{find_matches, group_text, named_group, regex_matches};
use crate::text::{split_on, split_str, str_eq, views};

verus! {

/// The service's name of an operating system (`std::env::consts::OS`).
pub open spec fn os_name(os: Seq<char>) -> Seq<char> {
    if os == "linux"@ {
        "Linux"@
    } else if os == "windows"@ {
        "cygwin"@
    } else {
        "OTHER_"@
    }
}

/// The service's name of an architecture (`std::env::consts::ARCH`).
pub open spec fn arch_name(arch: Seq<char>) -> Seq<char> {
    if arch == "x86"@ {
        "32"@
    } else if arch == "aarch64"@ {
        "ARM64"@
    } else {
        "64"@
    }
}

/// The operating system and architecture in the service's format.
pub fn get_current_os_and_arch(os: &str, arch: &str) -> (r: String)
    ensures
        r@ == os_name(os@) + arch_name(arch@),
{
    let mut r = if str_eq(os, "linux") {
        String::from_str("Linux")
    } else if str_eq(os, "windows") {
        String::from_str("cygwin")
    } else {
        String::from_str("OTHER_")
    };
    if str_eq(arch, "x86") {
        r.append("32");
    } else if str_eq(arch, "aarch64") {
        r.append("ARM64");
    } else {
        r.append("64");
    }
    r
}

/// The pattern that finds the version directory after an sdkit's name.
pub open spec fn version_pattern(sdkit: Seq<char>, fs_separator: Seq<char>) -> Seq<char> {
    sdkit + fs_separator + "(?P<ver>[^"@ + fs_separator + "]*)"@
}

/// The version named by the first entry that the pattern matches: `Some(None)`
/// when none does, `None` when the version cannot be read (an invalid pattern,
/// or a match without its `ver` group).
pub open spec fn version_in_entries(pattern: Seq<char>, entries: Seq<Seq<char>>) -> Option<
    Option<Seq<char>>,
>
    decreases entries.len(),
{
    if entries.len() == 0 {
        Some(None)
    } else {
        match regex_matches(pattern, entries[0]) {
            None => None,
            Some((names, ms)) => if ms.len() > 0 {
                match named_group(names, ms[0], "ver"@) {
                    Some(v) => Some(Some(v)),
                    None => None,
                }
            } else {
                version_in_entries(pattern, entries.drop_first())
            },
        }
    }
}

/// The version of `sdkit` that the `PATH` value names: the directory after
/// `sdkit` and the file-system separator in the first entry where they occur.
/// `fs_separator` is written as a regex (`\\` for a backslash).
pub fn get_sdkit_version_in_use(
    sdkit: &str,
    fs_separator: &str,
    path_value: &str,
    path_separator: char,
) -> (r: Option<Option<String>>)
    ensures
        r.deep_view() == version_in_entries(
            version_pattern(sdkit@, fs_separator@),
            split_on(path_value@, path_separator),
        ),
{
    let mut pattern = String::from_str(sdkit);
    pattern.append(fs_separator);
    pattern.append("(?P<ver>[^");
    pattern.append(fs_separator);
    pattern.append("]*)");
    let entries = split_str(path_value, path_separator);
    let ghost all = views(entries@);
    let mut i: usize = 0;
    assert(all.skip(0) =~= all);
    while i < entries.len()
        invariant
            i <= entries@.len(),
            all == views(entries@),
            all == split_on(path_value@, path_separator),
            pattern@ == version_pattern(sdkit@, fs_separator@),
            version_in_entries(pattern@, all) == version_in_entries(pattern@, all.skip(i as int)),
        decreases entries@.len() - i,
    {
        let ghost rest = all.skip(i as int);
        assert(rest[0] == entries@[i as int]@);
        assert(rest.drop_first() =~= all.skip(i + 1));
        let m = match find_matches(pattern.as_str(), entries[i].as_str()) {
            Some(m) => m,
            None => {
                return None;
            },
        };
        if m.matches.len() > 0 {
            assert(m.matches.deep_view()[0] == m.matches@[0].deep_view());
            return match group_text(&m.group_names, &m.matches[0], "ver") {
                Some(v) => Some(Some(v)),
                None => None,
            };
        }
        i = i + 1;
    }
    assert(all.skip(i as int).len() == 0);
    Some(None)
}

} // verus!
