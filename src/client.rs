//! The decisions of a repository download: which archive format a response
//! holds, how decoded documents become assets, how progress is counted, and
//! how a catalog swaps in a repository's new snapshot all at once.

use vstd::prelude::*;

use crate::catalog::{build_snapshot, snapshot_reflects, BuildRecord, DownloadCount, RepoAsset, RepoSnapshot, RepositoryRefList};
use crate::game::{game_version_ok, game_version_result, GameVersion, GameVersionParseError};
use crate::json::{verify_outcome, JsonBuilds, JsonError, JsonModule};

verus! {

/// Why a repository could not be unpacked.
#[derive(Debug, Clone, PartialEq, Eq)]
pub enum RepoUnpackError {
    /// Neither the response nor its url says what format the archive has.
    MissingContentType { url: String },
    /// The archive has a format this library cannot unpack.
    UnsupportedContentType { content_type: String, url: String },
    /// A build record names a text that is no game version.
    GameVersionParse(GameVersionParseError),
    /// A document of the repository was invalid.
    InvalidJsonFile { source: JsonError, url: String, path: String },
    /// The repository's ETag was not visible ASCII text.
    InvalidEtag { url: String },
}

pub open spec fn gzip_type() -> Seq<char> {
    seq!['a', 'p', 'p', 'l', 'i', 'c', 'a', 't', 'i', 'o', 'n', '/', 'g', 'z', 'i', 'p']
}

pub open spec fn x_gzip_type() -> Seq<char> {
    seq!['a', 'p', 'p', 'l', 'i', 'c', 'a', 't', 'i', 'o', 'n', '/', 'x', '-', 'g', 'z', 'i', 'p']
}

pub open spec fn zip_type() -> Seq<char> {
    seq!['a', 'p', 'p', 'l', 'i', 'c', 'a', 't', 'i', 'o', 'n', '/', 'z', 'i', 'p']
}

pub open spec fn ends_with(s: Seq<char>, suffix: Seq<char>) -> bool {
    s.len() >= suffix.len() && s.skip(s.len() - suffix.len()) == suffix
}

/// The content type of a response: its `Content-Type` header when it has a
/// readable one, else what the url's path ends with.
pub open spec fn content_type_of(header: Option<Seq<char>>, path: Seq<char>) -> Option<Seq<char>> {
    match header {
        Some(h) => Some(h),
        None => if ends_with(path, seq!['.', 't', 'a', 'r', '.', 'g', 'z']) || ends_with(path, seq!['.', 't', 'g', 'z']) {
            Some(gzip_type())
        } else if ends_with(path, seq!['.', 'z', 'i', 'p']) {
            Some(zip_type())
        } else {
            None
        },
    }
}

fn str_ends_with(s: &str, suffix: &str) -> (r: bool)
    ensures
        r == ends_with(s@, suffix@),
{
    let n = s.unicode_len();
    let m = suffix.unicode_len();
    if n < m {
        return false;
    }
    let tail = s.substring_char(n - m, n);
    assert(tail@ =~= s@.skip(n - m));
    crate::text::str_eq(tail, suffix)
}

/// Decides the content type of a response from its header (`None` when it has
/// none, or none readable as text) and the path of its url.
pub fn content_type(header: Option<&str>, url_path: &str) -> (r: Option<String>)
    ensures
        match header {
            Some(h) => r matches Some(t) && t@ == h@,
            None => match content_type_of(None, url_path@) {
                Some(t) => r matches Some(x) && x@ == t,
                None => r is None,
            },
        },
{
    if let Some(h) = header {
        return Some(h.to_owned());
    }
    proof {
        reveal_strlit(".tar.gz");
        reveal_strlit(".tgz");
        reveal_strlit(".zip");
        reveal_strlit("application/gzip");
        reveal_strlit("application/zip");
    }
    assert(".tar.gz"@ =~= seq!['.', 't', 'a', 'r', '.', 'g', 'z']);
    assert(".tgz"@ =~= seq!['.', 't', 'g', 'z']);
    assert(".zip"@ =~= seq!['.', 'z', 'i', 'p']);
    assert("application/gzip"@ =~= gzip_type());
    assert("application/zip"@ =~= zip_type());
    if str_ends_with(url_path, ".tar.gz") || str_ends_with(url_path, ".tgz") {
        return Some("application/gzip".to_owned());
    }
    if str_ends_with(url_path, ".zip") {
        return Some("application/zip".to_owned());
    }
    None
}

/// The archive formats this library unpacks.
#[derive(Debug, Clone, Copy, PartialEq, Eq, Structural)]
pub enum ArchiveFormat {
    /// A gzip-compressed tar archive.
    TarGz,
}

/// Picks the archive format for a content type: gzip types are tar.gz
/// archives; any other type (zip included) is refused.
pub fn archive_format(content_type: Option<&str>, url: &str) -> (r: Result<ArchiveFormat, RepoUnpackError>)
    ensures
        match content_type {
            None => r matches Err(RepoUnpackError::MissingContentType { url: u }) && u@ == url@,
            Some(t) => if t@ == gzip_type() || t@ == x_gzip_type() {
                r == Ok::<ArchiveFormat, RepoUnpackError>(ArchiveFormat::TarGz)
            } else {
                r matches Err(RepoUnpackError::UnsupportedContentType { content_type: c, url: u }) && c@ == t@ && u@ == url@
            },
        },
{
    proof {
        reveal_strlit("application/gzip");
        reveal_strlit("application/x-gzip");
    }
    assert("application/gzip"@ =~= gzip_type());
    assert("application/x-gzip"@ =~= x_gzip_type());
    match content_type {
        None => Err(RepoUnpackError::MissingContentType { url: url.to_owned() }),
        Some(t) => {
            if crate::text::str_eq(t, "application/gzip") || crate::text::str_eq(t, "application/x-gzip") {
                Ok(ArchiveFormat::TarGz)
            } else {
                Err(RepoUnpackError::UnsupportedContentType { content_type: t.to_owned(), url: url.to_owned() })
            }
        },
    }
}

/// A repository document as decoded, before the checks that make it an asset.
#[derive(Debug)]
pub enum RawAsset {
    Builds(JsonBuilds),
    Release(JsonModule),
    DownloadCounts(Vec<DownloadCount>),
    RepositoryRefList(RepositoryRefList),
}

/// The first `n` build texts read as game versions.
pub open spec fn builds_read(list: Seq<(i32, String)>, n: int) -> bool {
    forall|j: int| 0 <= j < n ==> game_version_ok((#[trigger] list[j]).1@)
}

fn read_builds(list: Vec<(i32, String)>) -> (r: Result<Vec<BuildRecord>, GameVersionParseError>)
    ensures
        match r {
            Ok(b) => builds_read(list@, list@.len() as int) && b@.len() == list@.len() && forall|k: int|
                0 <= k < b@.len() ==> (#[trigger] b@[k]).build_id == list@[k].0 && game_version_result(list@[k].1@, Ok(b@[k].version)),
            Err(e) => exists|k: int| 0 <= k < list@.len() && builds_read(list@, k) && !game_version_ok((#[trigger] list@[k]).1@)
                && game_version_result(list@[k].1@, Err(e)),
        },
{
    let mut out: Vec<BuildRecord> = Vec::new();
    let mut k: usize = 0;
    while k < list.len()
        invariant
            k <= list@.len(),
            builds_read(list@, k as int),
            out@.len() == k,
            forall|j: int| 0 <= j < k ==> (#[trigger] out@[j]).build_id == list@[j].0 && game_version_result(list@[j].1@, Ok(out@[j].version)),
        decreases list.len() - k,
    {
        let (id, text) = (list[k].0, &list[k].1);
        match GameVersion::from_str(text.as_str()) {
            Ok(version) => {
                out.push(BuildRecord { build_id: id, version });
                assert(game_version_ok(list@[k as int].1@));
            },
            Err(e) => {
                assert(!game_version_ok(list@[k as int].1@));
                return Err(e);
            },
        }
        k = k + 1;
    }
    Ok(out)
}

/// The asset a decoded document makes, or why it makes none.
pub open spec fn finished_asset(raw: RawAsset, url: Seq<char>, path: Seq<char>, r: Result<RepoAsset, RepoUnpackError>) -> bool {
    match raw {
        RawAsset::Release(j) => match verify_outcome(j) {
            Ok(_) => r == Ok::<RepoAsset, RepoUnpackError>(RepoAsset::Release(j)),
            Err(e) => r matches Err(RepoUnpackError::InvalidJsonFile { source, url: u, path: p }) && source == e && u@ == url && p@ == path,
        },
        RawAsset::Builds(JsonBuilds { builds: list }) => match r {
            Ok(RepoAsset::Builds(b)) => builds_read(list@, list@.len() as int) && b@.len() == list@.len() && forall|k: int|
                0 <= k < b@.len() ==> (#[trigger] b@[k]).build_id == list@[k].0 && game_version_result(list@[k].1@, Ok(b@[k].version)),
            Err(RepoUnpackError::GameVersionParse(e)) => exists|k: int| 0 <= k < list@.len() && builds_read(list@, k)
                && !game_version_ok((#[trigger] list@[k]).1@) && game_version_result(list@[k].1@, Err(e)),
            _ => false,
        },
        RawAsset::DownloadCounts(l) => r == Ok::<RepoAsset, RepoUnpackError>(RepoAsset::DownloadCounts(l)),
        RawAsset::RepositoryRefList(l) => r == Ok::<RepoAsset, RepoUnpackError>(RepoAsset::RepositoryRefList(l)),
    }
}

/// Checks a decoded document of the repository at `url`, found at `path` in
/// its archive: a release must pass `verify`, and every build text must be a
/// game version.
pub fn finish_asset(raw: RawAsset, url: &str, path: &str) -> (r: Result<RepoAsset, RepoUnpackError>)
    ensures
        finished_asset(raw, url@, path@, r),
{
    match raw {
        RawAsset::Release(json) => match json.verify() {
            Ok(()) => Ok(RepoAsset::Release(json)),
            Err(source) => Err(RepoUnpackError::InvalidJsonFile { source, url: url.to_owned(), path: path.to_owned() }),
        },
        RawAsset::Builds(JsonBuilds { builds }) => match read_builds(builds) {
            Ok(b) => Ok(RepoAsset::Builds(b)),
            Err(e) => Err(RepoUnpackError::GameVersionParse(e)),
        },
        RawAsset::DownloadCounts(l) => Ok(RepoAsset::DownloadCounts(l)),
        RawAsset::RepositoryRefList(l) => Ok(RepoAsset::RepositoryRefList(l)),
    }
}

/// A snapshot of the progress of a repository download.
#[derive(Debug, Clone, Copy, PartialEq, Eq, Structural)]
pub struct DownloadProgress {
    /// Bytes downloaded so far.
    pub bytes_downloaded: u64,
    /// Bytes the server said it would send.
    pub bytes_expected: Option<u64>,
    /// Assets unpacked so far.
    pub items_unpacked: u64,
    pub is_computing_derived_data: bool,
}

/// Counts the progress of a download. Both counters only grow, so the
/// snapshots that successive reports hand out never go back.
#[derive(Debug)]
pub struct DownloadProgressReporter {
    bytes_downloaded: u64,
    bytes_expected: Option<u64>,
    items_unpacked: u64,
}

impl DownloadProgressReporter {
    pub closed spec fn downloaded(&self) -> u64 {
        self.bytes_downloaded
    }

    pub closed spec fn unpacked(&self) -> u64 {
        self.items_unpacked
    }

    pub closed spec fn expected(&self) -> Option<u64> {
        self.bytes_expected
    }

    pub fn new(bytes_expected: Option<u64>) -> (r: DownloadProgressReporter)
        ensures
            r.downloaded() == 0,
            r.unpacked() == 0,
            r.expected() == bytes_expected,
    {
        DownloadProgressReporter { bytes_downloaded: 0, bytes_expected, items_unpacked: 0 }
    }

    /// Records that `bytes` bytes in all have been read; a smaller count than
    /// one already seen does not move the counter back.
    pub fn report_download_progress(&mut self, bytes: u64) -> (p: DownloadProgress)
        ensures
            final(self).downloaded() == if bytes > old(self).downloaded() { bytes } else { old(self).downloaded() },
            final(self).downloaded() >= old(self).downloaded(),
            final(self).unpacked() == old(self).unpacked(),
            final(self).expected() == old(self).expected(),
            p == (DownloadProgress {
                bytes_downloaded: final(self).downloaded(),
                bytes_expected: final(self).expected(),
                items_unpacked: final(self).unpacked(),
                is_computing_derived_data: false,
            }),
    {
        if bytes > self.bytes_downloaded {
            self.bytes_downloaded = bytes;
        }
        self.snapshot()
    }

    /// The number of assets unpacked so far.
    pub fn items_unpacked(&self) -> (r: u64)
        ensures
            r == self.unpacked(),
    {
        self.items_unpacked
    }

    /// Records one more unpacked asset; the counter must have room for it.
    pub fn report_unpacked_item(&mut self) -> (p: DownloadProgress)
        requires
            old(self).unpacked() < u64::MAX,
        ensures
            final(self).unpacked() == old(self).unpacked() + 1,
            final(self).downloaded() == old(self).downloaded(),
            final(self).expected() == old(self).expected(),
            p == (DownloadProgress {
                bytes_downloaded: final(self).downloaded(),
                bytes_expected: final(self).expected(),
                items_unpacked: final(self).unpacked(),
                is_computing_derived_data: false,
            }),
    {
        self.items_unpacked = self.items_unpacked + 1;
        self.snapshot()
    }

    fn snapshot(&self) -> (p: DownloadProgress)
        ensures
            p == (DownloadProgress {
                bytes_downloaded: self.downloaded(),
                bytes_expected: self.expected(),
                items_unpacked: self.unpacked(),
                is_computing_derived_data: false,
            }),
    {
        DownloadProgress {
            bytes_downloaded: self.bytes_downloaded,
            bytes_expected: self.bytes_expected,
            items_unpacked: self.items_unpacked,
            is_computing_derived_data: false,
        }
    }
}

/// A repository of the catalog.
#[derive(Debug, Clone, PartialEq, Eq)]
pub struct Repository {
    pub repo_id: i32,
    pub name: String,
    pub url: String,
    pub priority: i32,
}

/// A repository with its last ETag and the snapshot of its last ingest.
#[derive(Debug)]
pub struct RepoRecord {
    pub repository: Repository,
    pub etag: Option<String>,
    pub snapshot: RepoSnapshot,
}

/// The catalog: every repository with its current snapshot.
#[derive(Debug)]
pub struct Catalog {
    pub repos: Vec<RepoRecord>,
}

/// The first error among parsed assets, if any.
pub open spec fn first_error(rs: Seq<Result<RepoAsset, RepoUnpackError>>) -> Option<RepoUnpackError>
    decreases rs.len(),
{
    if rs.len() == 0 {
        None
    } else {
        match rs[0] {
            Err(e) => Some(e),
            Ok(_) => first_error(rs.drop_first()),
        }
    }
}

/// The assets of parsed results that are all `Ok`.
pub open spec fn ok_values(rs: Seq<Result<RepoAsset, RepoUnpackError>>) -> Seq<RepoAsset> {
    rs.map_values(|r: Result<RepoAsset, RepoUnpackError>| r->Ok_0)
}

impl Catalog {
    pub fn new() -> (c: Catalog)
        ensures
            c.repos@.len() == 0,
    {
        Catalog { repos: Vec::new() }
    }

    /// Replaces the snapshot of repository `k` with the one the parsed assets
    /// describe, and stores its ETag. If any asset failed, the first failure is
    /// returned and the catalog is left exactly as it was.
    pub fn ingest(&mut self, k: usize, etag: Option<String>, assets: Vec<Result<RepoAsset, RepoUnpackError>>) -> (r: Result<(), RepoUnpackError>)
        requires
            k < old(self).repos@.len(),
        ensures
            match first_error(assets@) {
                Some(e) => r == Err::<(), RepoUnpackError>(e) && *final(self) == *old(self),
                None => r is Ok && final(self).repos@.len() == old(self).repos@.len()
                    && (forall|j: int| 0 <= j < old(self).repos@.len() && j != k ==> final(self).repos@[j] == old(self).repos@[j])
                    && final(self).repos@[k as int].repository == old(self).repos@[k as int].repository
                    && final(self).repos@[k as int].etag == etag
                    && snapshot_reflects(final(self).repos@[k as int].snapshot, ok_values(assets@)),
            },
    {
        let ghost all = assets@;
        let mut rest = assets;
        let mut oks: Vec<RepoAsset> = Vec::new();
        let ghost mut i: int = 0;
        assert(rest@ =~= all.skip(0));
        while rest.len() > 0
            invariant
                0 <= i <= all.len(),
                rest@ == all.skip(i),
                first_error(all) == first_error(all.skip(i)),
                oks@ == ok_values(all.take(i)),
                *self == *old(self),
                k < self.repos@.len(),
                all == assets@,
            decreases rest@.len(),
        {
            let item = rest.remove(0);
            proof {
                assert(item == all[i]);
                assert(all.skip(i).drop_first() =~= all.skip(i + 1));
            }
            match item {
                Ok(a) => {
                    assert(all.skip(i)[0] == all[i]);
                    oks.push(a);
                    proof {
                        assert(ok_values(all.take(i + 1)) =~= ok_values(all.take(i)).push(a));
                        i = i + 1;
                    }
                },
                Err(e) => {
                    assert(all.skip(i)[0] == all[i]);
                    assert(first_error(all.skip(i)) == Some(e));
                    return Err(e);
                },
            }
            assert(rest@ =~= all.skip(i));
        }
        assert(all.take(i) =~= all);
        let snapshot = build_snapshot(oks);
        let old_record = self.repos.remove(k);
        let record = RepoRecord { repository: old_record.repository, etag, snapshot };
        self.repos.insert(k, record);
        assert(self.repos@ =~= old(self).repos@.update(k as int, record));
        Ok(())
    }
}

} // verus!
