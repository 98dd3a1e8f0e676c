//! Repository assets: which files of a repository archive hold what.

use vstd::prelude::*;

use crate::text::str_eq;

verus! {

/// The kinds of asset a repository archive holds.
#[derive(Debug, Clone, Copy, PartialEq, Eq, Structural)]
pub enum RepoAssetVariant {
    /// A list of known game versions by build id.
    Builds,
    /// A complete description of a module's release.
    Release,
    /// A map from module ids to their download counts.
    DownloadCounts,
    /// A list of other repositories that this one suggests.
    RepositoryRefList,
}

/// A path separator: `/`, or `\` as Windows writes it.
pub open spec fn is_separator(c: char) -> bool {
    c == '/' || c == '\\'
}

/// The last component of a path: the text after its last separator (empty
/// when the path ends with one).
pub open spec fn file_name(p: Seq<char>) -> Seq<char>
    decreases p.len(),
{
    if p.len() == 0 || is_separator(p.last()) {
        Seq::empty()
    } else {
        file_name(p.drop_last()).push(p.last())
    }
}

pub open spec fn builds_name() -> Seq<char> {
    seq!['b', 'u', 'i', 'l', 'd', 's', '.', 'j', 's', 'o', 'n']
}

pub open spec fn repositories_name() -> Seq<char> {
    seq!['r', 'e', 'p', 'o', 's', 'i', 't', 'o', 'r', 'i', 'e', 's', '.', 'j', 's', 'o', 'n']
}

pub open spec fn download_counts_name() -> Seq<char> {
    seq![
        'd', 'o', 'w', 'n', 'l', 'o', 'a', 'd', '_', 'c', 'o', 'u', 'n', 't', 's', '.', 'j', 's', 'o', 'n'
    ]
}

pub open spec fn release_suffix() -> Seq<char> {
    seq!['.', 'c', 'k', 'a', 'n']
}

/// The asset a file of this name holds, if any.
pub open spec fn variant_of_name(n: Seq<char>) -> Option<RepoAssetVariant> {
    if n == builds_name() {
        Some(RepoAssetVariant::Builds)
    } else if n == repositories_name() {
        Some(RepoAssetVariant::RepositoryRefList)
    } else if n == download_counts_name() {
        Some(RepoAssetVariant::DownloadCounts)
    } else if n.len() >= 5 && n.skip(n.len() - 5) == release_suffix() {
        Some(RepoAssetVariant::Release)
    } else {
        None
    }
}

proof fn lemma_file_name_split(p: Seq<char>, k: int)
    requires
        0 <= k <= p.len(),
        forall|j: int| k <= j < p.len() ==> !is_separator(#[trigger] p[j]),
        k > 0 ==> is_separator(p[k - 1]),
    ensures
        file_name(p) == p.skip(k),
    decreases p.len(),
{
    if p.len() == k {
        if k > 0 {
            assert(p.last() == p[k - 1]);
        }
        assert(p.skip(k).len() == 0);
    } else {
        let q = p.drop_last();
        assert forall|j: int| k <= j < q.len() implies !is_separator(#[trigger] q[j]) by {
            assert(q[j] == p[j]);
        }
        if k > 0 {
            assert(q[k - 1] == p[k - 1]);
        }
        lemma_file_name_split(q, k);
        assert(q.skip(k).push(p.last()) =~= p.skip(k));
    }
}

impl RepoAssetVariant {
    /// Decides from a path inside an archive which asset the file holds, by
    /// its file name alone.
    pub fn from_path(path: &str) -> (r: Option<RepoAssetVariant>)
        ensures
            r == variant_of_name(file_name(path@)),
    {
        let n = path.unicode_len();
        let mut k: usize = n;
        while k > 0
            invariant_except_break
                forall|j: int| k <= j < n ==> !is_separator(#[trigger] path@[j]),
            invariant
                k <= n,
                n == path@.len(),
            ensures
                k <= n,
                forall|j: int| k <= j < n ==> !is_separator(#[trigger] path@[j]),
                k > 0 ==> is_separator(path@[k - 1]),
            decreases k,
        {
            let c = path.get_char(k - 1);
            if c == '/' || c == '\\' {
                break;
            }
            k = k - 1;
        }
        proof {
            lemma_file_name_split(path@, k as int);
        }
        let name = path.substring_char(k, n);
        proof {
            reveal_strlit("builds.json");
            reveal_strlit("repositories.json");
            reveal_strlit("download_counts.json");
            reveal_strlit(".ckan");
            assert("builds.json"@ =~= builds_name());
            assert("repositories.json"@ =~= repositories_name());
            assert("download_counts.json"@ =~= download_counts_name());
            assert(".ckan"@ =~= release_suffix());
        }
        if str_eq(name, "builds.json") {
            return Some(RepoAssetVariant::Builds);
        }
        if str_eq(name, "repositories.json") {
            return Some(RepoAssetVariant::RepositoryRefList);
        }
        if str_eq(name, "download_counts.json") {
            return Some(RepoAssetVariant::DownloadCounts);
        }
        let len = name.unicode_len();
        if len >= 5 && str_eq(name.substring_char(len - 5, len), ".ckan") {
            assert(name@.subrange(len - 5, len as int) =~= name@.skip(len - 5));
            return Some(RepoAssetVariant::Release);
        }
        if len >= 5 {
            assert(name@.subrange(len - 5, len as int) =~= name@.skip(len - 5));
        }
        None
    }
}

/// A path that ends with a separator names a directory, which is no asset.
pub proof fn lemma_directory_is_not_an_asset(path: Seq<char>)
    requires
        path.len() > 0,
        is_separator(path.last()),
    ensures
        variant_of_name(file_name(path)) is None,
{
    assert(file_name(path).len() == 0);
}

/// The bytes of one asset file, with where it came from.
#[derive(Debug, Clone)]
pub struct RepoAssetBuf {
    /// The path of the file inside the repository.
    pub path: String,
    /// The asset the file holds.
    pub variant: RepoAssetVariant,
    /// The file's contents.
    pub data: Vec<u8>,
}

impl RepoAssetBuf {
    /// Keeps an archive entry if its path names an asset; other entries are skipped.
    pub fn from_entry(path: String, data: Vec<u8>) -> (r: Option<RepoAssetBuf>)
        ensures
            match variant_of_name(file_name(path@)) {
                None => r is None,
                Some(v) => r matches Some(b) && b.path@ == path@ && b.variant == v && b.data@ == data@,
            },
    {
        match RepoAssetVariant::from_path(path.as_str()) {
            None => None,
            Some(variant) => Some(RepoAssetBuf { path, variant, data }),
        }
    }
}

/// Assets that are all in memory already.
#[derive(Debug, Clone)]
pub struct InMemoryAssetLoader {
    pub assets: Vec<RepoAssetBuf>,
}

impl From<Vec<RepoAssetBuf>> for InMemoryAssetLoader {
    fn from(assets: Vec<RepoAssetBuf>) -> (r: InMemoryAssetLoader)
        ensures
            r.assets == assets,
    {
        InMemoryAssetLoader { assets }
    }
}

impl vstd::std_specs::convert::FromSpecImpl<Vec<RepoAssetBuf>> for InMemoryAssetLoader {
    open spec fn obeys_from_spec() -> bool {
        true
    }

    open spec fn from_spec(v: Vec<RepoAssetBuf>) -> InMemoryAssetLoader {
        InMemoryAssetLoader { assets: v }
    }
}

impl InMemoryAssetLoader {
    /// The assets, in the order they were given.
    pub fn into_assets(self) -> (r: Vec<RepoAssetBuf>)
        ensures
            r == self.assets,
    {
        self.assets
    }
}

} // verus!
