//! Installing an sdkit: where everything goes and what the downloaded archive is.
use vstd::prelude::*;
use crate::filesystem::{get_workdir_subpath, join_path, path_join, workdir_subpath, Layout};
use crate::text::{ends_with, split_on, split_str};
use crate::use_sdkit::install_dir_of;

verus! {

/// The places an installation uses, and the address that redirects to the archive.
pub struct InstallPlan {
    /// Where the version is installed; it must not exist yet.
    pub install_path: String,
    /// The service's address that redirects to the archive.
    pub broker_url: String,
    /// Where archives are downloaded to.
    pub archives_dir: String,
    /// The scratch directory, cleared before unpacking.
    pub tmp_dir: String,
    /// Where the archive is unpacked.
    pub unpack_path: String,
}

/// The service's address that redirects to the archive of a version.
pub open spec fn broker_url(sdkit: Seq<char>, version: Seq<char>, os_and_arch: Seq<char>) -> Seq<
    char,
> {
    "https://api.sdkman.io/2/broker/download/"@ + sdkit + "/"@ + version + "/"@ + os_and_arch
}

/// The broker address names the sdkit after the service's download path, and
/// ends with the version identifier, whole, and the platform: nothing of the
/// three is cut or changed.
pub proof fn law_broker_url_names_version_whole(
    sdkit: Seq<char>,
    version: Seq<char>,
    os_and_arch: Seq<char>,
)
    ensures
        ("https://api.sdkman.io/2/broker/download/"@ + sdkit + "/"@).is_prefix_of(
            broker_url(sdkit, version, os_and_arch),
        ),
        ("/"@ + version + "/"@ + os_and_arch).is_suffix_of(broker_url(sdkit, version, os_and_arch)),
        broker_url(sdkit, version, os_and_arch).len() == "https://api.sdkman.io/2/broker/download/"@.len()
            + sdkit.len() + version.len() + os_and_arch.len() + 2,
{
    let base = "https://api.sdkman.io/2/broker/download/"@;
    let url = broker_url(sdkit, version, os_and_arch);
    let head = base + sdkit + "/"@;
    let tail = "/"@ + version + "/"@ + os_and_arch;
    reveal_strlit("/");
    assert(url =~= head + version + "/"@ + os_and_arch);
    assert(head =~= url.subrange(0, head.len() as int));
    assert(url =~= base + sdkit + tail);
    assert(tail =~= url.subrange(url.len() - tail.len(), url.len() as int));
}

/// Where installing a version of an sdkit puts things.
pub fn plan_install(layout: &Layout, sdkit: &str, version: &str, os_and_arch: &str) -> (p:
    InstallPlan)
    ensures
        p.install_path@ == install_dir_of(*layout, sdkit@, version@),
        p.broker_url@ == broker_url(sdkit@, version@, os_and_arch@),
        p.archives_dir@ == workdir_subpath(*layout, "archives"@),
        p.tmp_dir@ == workdir_subpath(*layout, "tmp"@),
        p.unpack_path@ == workdir_subpath(
            *layout,
            path_join("tmp"@, sdkit@ + "_"@ + version@, layout.dir_separator),
        ),
{
    let rel = join_path("candidates", sdkit, layout.dir_separator);
    let rel = join_path(rel.as_str(), version, layout.dir_separator);
    let install_path = get_workdir_subpath(layout, rel.as_str());
    let mut broker_url = String::from_str("https://api.sdkman.io/2/broker/download/");
    broker_url.append(sdkit);
    broker_url.append("/");
    broker_url.append(version);
    broker_url.append("/");
    broker_url.append(os_and_arch);
    let mut unpack_name = String::from_str(sdkit);
    unpack_name.append("_");
    unpack_name.append(version);
    let unpack_rel = join_path("tmp", unpack_name.as_str(), layout.dir_separator);
    InstallPlan {
        install_path,
        broker_url,
        archives_dir: get_workdir_subpath(layout, "archives"),
        tmp_dir: get_workdir_subpath(layout, "tmp"),
        unpack_path: get_workdir_subpath(layout, unpack_rel.as_str()),
    }
}

/// The file name of the archive that an address names: the text after its last
/// `/`, up to the first `?`.
pub open spec fn archive_file_name_spec(url: Seq<char>) -> Seq<char> {
    split_on(split_on(url, '/').last(), '?')[0]
}

/// The file name of the archive that an address names.
pub fn archive_file_name(url: &str) -> (r: String)
    ensures
        r@ == archive_file_name_spec(url@),
{
    let parts = split_str(url, '/');
    proof {
        crate::text::lemma_split_nonempty(url@, '/');
    }
    let last = parts.len() - 1;
    assert(crate::text::views(parts@)[last as int] == parts@[last as int]@);
    let mut pieces = split_str(parts[last].as_str(), '?');
    proof {
        crate::text::lemma_split_nonempty(parts@[last as int]@, '?');
        assert(crate::text::views(pieces@)[0] == pieces@[0]@);
    }
    pieces.remove(0)
}

/// The kinds of archive that can be unpacked.
#[derive(PartialEq, Eq, Structural, Clone, Copy, Debug)]
pub enum ArchiveKind {
    TarGz,
    Zip,
}

/// The kind of an archive by its file name: `None` for a kind that cannot be unpacked.
pub fn archive_kind(file_name: &str) -> (r: Option<ArchiveKind>)
    ensures
        r == (if ".tar.gz"@.is_suffix_of(file_name@) {
            Some(ArchiveKind::TarGz)
        } else if ".zip"@.is_suffix_of(file_name@) {
            Some(ArchiveKind::Zip)
        } else {
            None
        }),
{
    if ends_with(file_name, ".tar.gz") {
        Some(ArchiveKind::TarGz)
    } else if ends_with(file_name, ".zip") {
        Some(ArchiveKind::Zip)
    } else {
        None
    }
}

} // verus!
