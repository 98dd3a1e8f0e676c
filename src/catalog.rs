//! A repository's snapshot of the catalog: its modules, their releases in
//! version order with the derived sort index and "latest" flag, and the
//! other records an ingest produces.

use core::cmp::Ordering;
use vstd::prelude::*;

use crate::game::GameVersion;
use crate::json::JsonModule;
use crate::version::{
    lemma_version_text_antisymmetric, lemma_version_text_transitive, version_cmp, ModuleVersion,
};

verus! {

/// A known game build and the game version it is.
#[derive(Debug, Clone, Copy, PartialEq, Eq, Structural)]
pub struct BuildRecord {
    pub build_id: i32,
    pub version: GameVersion,
}

/// A pointer to another repository.
#[derive(Debug, Clone, PartialEq, Eq)]
pub struct RepositoryRef {
    pub name: String,
    pub url: String,
    pub priority: i32,
}

impl RepositoryRef {
    /// A reference with the default priority, zero.
    pub fn new(name: String, url: String) -> (r: RepositoryRef)
        ensures
            r.name == name,
            r.url == url,
            r.priority == 0,
    {
        RepositoryRef { name, url, priority: 0 }
    }
}

/// The repositories a repository suggests.
#[derive(Debug, Clone, PartialEq, Eq)]
pub struct RepositoryRefList {
    pub repositories: Vec<RepositoryRef>,
}

/// The download count of one module.
#[derive(Debug, Clone, PartialEq, Eq)]
pub struct DownloadCount {
    pub slug: String,
    pub count: i32,
}

/// A parsed asset of a repository archive.
#[derive(Debug)]
pub enum RepoAsset {
    /// Known game versions by build id.
    Builds(Vec<BuildRecord>),
    /// A complete description of a module's release.
    Release(JsonModule),
    /// Download counts by module.
    DownloadCounts(Vec<DownloadCount>),
    /// Other repositories this one suggests.
    RepositoryRefList(RepositoryRefList),
}

/// One release of a module.
#[derive(Debug)]
pub struct ReleaseEntry {
    pub version: ModuleVersion,
    pub release: JsonModule,
    /// Position among the module's releases in version order, oldest first.
    pub sort_index: usize,
    /// Whether this is the module's newest release.
    pub up_to_date: bool,
}

/// A module of a repository with its releases, oldest first.
#[derive(Debug)]
pub struct ModuleEntry {
    pub slug: String,
    pub download_count: i32,
    pub releases: Vec<ReleaseEntry>,
}

/// Releases in strictly increasing version order.
pub open spec fn releases_ordered(rs: Seq<ReleaseEntry>) -> bool {
    forall|i: int, j: int|
        0 <= i < j < rs.len() ==> version_cmp(#[trigger] rs[i].version@, #[trigger] rs[j].version@)
            == Ordering::Less
}

/// Each release carries its position as sort index, and only the last is
/// flagged as the newest.
pub open spec fn derived_data_stamped(rs: Seq<ReleaseEntry>) -> bool {
    forall|i: int|
        0 <= i < rs.len() ==> #[trigger] rs[i].sort_index == i && rs[i].up_to_date == (i == rs.len()
            - 1)
}

/// Some release has a version equal to `v`.
pub open spec fn has_version(rs: Seq<ReleaseEntry>, v: Seq<char>) -> bool {
    exists|p: int| 0 <= p < rs.len() && version_cmp(#[trigger] rs[p].version@, v) == Ordering::Equal
}

/// In a module whose derived data is stamped, exactly one release is the
/// newest, when there is any release, and sort indices run from zero up
/// along the version order.
pub proof fn lemma_one_release_up_to_date(rs: Seq<ReleaseEntry>)
    requires
        releases_ordered(rs),
        derived_data_stamped(rs),
    ensures
        rs.len() > 0 ==> rs[rs.len() - 1].up_to_date,
        forall|i: int, j: int|
            0 <= i < rs.len() && 0 <= j < rs.len() && rs[i].up_to_date && rs[j].up_to_date ==> i
                == j,
        forall|i: int, j: int|
            0 <= i < j < rs.len() ==> rs[i].sort_index < rs[j].sort_index && version_cmp(
                rs[i].version@,
                rs[j].version@,
            ) == Ordering::Less,
        forall|i: int| 0 <= i < rs.len() ==> rs[i].sort_index < rs.len(),
{
    if rs.len() > 0 {
        assert(rs[rs.len() - 1].sort_index == rs.len() - 1);
    }
    assert forall|i: int, j: int|
        0 <= i < rs.len() && 0 <= j < rs.len() && rs[i].up_to_date && rs[j].up_to_date implies i
            == j by {
        assert(rs[i].sort_index == i);
        assert(rs[j].sort_index == j);
    }
    assert forall|i: int, j: int| 0 <= i < j < rs.len() implies rs[i].sort_index < rs[j].sort_index by {
        assert(rs[i].sort_index == i);
        assert(rs[j].sort_index == j);
    }
    assert forall|i: int| 0 <= i < rs.len() implies rs[i].sort_index < rs.len() by {
        assert(rs[i].sort_index == i);
    }
}

/// Puts `x` in place of the element at `k`, handing back the element.
fn replace_at<T>(v: &mut Vec<T>, k: usize, x: T) -> (r: T)
    requires
        k < old(v).len(),
    ensures
        r == old(v)@[k as int],
        final(v)@ == old(v)@.update(k as int, x),
{
    let r = v.remove(k);
    v.insert(k, x);
    assert(v@ =~= old(v)@.update(k as int, x));
    r
}

/// Adds a release to version-ordered releases. A release whose version
/// equals one already there replaces it; any other keeps its place in the order.
pub fn insert_release(rs: &mut Vec<ReleaseEntry>, e: ReleaseEntry)
    requires
        releases_ordered(old(rs)@),
    ensures
        releases_ordered(final(rs)@),
        final(rs)@.contains(e),
        forall|i: int| 0 <= i < final(rs)@.len() ==> #[trigger] final(rs)@[i] == e || old(rs)@.contains(final(rs)@[i]),
        forall|v: Seq<char>| has_version(old(rs)@, v) ==> #[trigger] has_version(final(rs)@, v),
{
    let n = rs.len();
    let mut p: usize = 0;
    while p < n
        invariant_except_break
            forall|i: int| 0 <= i < p ==> version_cmp(#[trigger] rs@[i].version@, e.version@) == Ordering::Less,
        invariant
            p <= n,
            n == rs@.len(),
            rs@ == old(rs)@,
        ensures
            p <= n,
            forall|i: int| 0 <= i < p ==> version_cmp(#[trigger] rs@[i].version@, e.version@) == Ordering::Less,
            p < n ==> version_cmp(e.version@, rs@[p as int].version@) != Ordering::Greater,
        decreases n - p,
    {
        let c = e.version.cmp(&rs[p].version);
        match c {
            Ordering::Greater => {},
            _ => break,
        }
        proof {
            lemma_version_text_antisymmetric(e.version@, rs@[p as int].version@);
        }
        p = p + 1;
    }
    let ghost old_rs = rs@;
    let ghost ev = e.version@;
    let equal = p < n && match e.version.cmp(&rs[p].version) {
        Ordering::Equal => true,
        _ => false,
    };
    if equal {
        let ghost q = old_rs[p as int].version@;
        replace_at(rs, p, e);
        proof {
            assert(rs@[p as int] == e);
            lemma_version_text_antisymmetric(ev, q);
            assert forall|i: int, j: int| 0 <= i < j < rs@.len() implies version_cmp(
                #[trigger] rs@[i].version@,
                #[trigger] rs@[j].version@,
            ) == Ordering::Less by {
                if j == p {
                } else if i == p {
                    lemma_version_text_transitive(ev, q, rs@[j].version@);
                }
            }
            assert forall|v: Seq<char>| has_version(old_rs, v) implies #[trigger] has_version(rs@, v) by {
                let w = choose|w: int| 0 <= w < old_rs.len() && version_cmp(#[trigger] old_rs[w].version@, v) == Ordering::Equal;
                if w == p {
                    lemma_version_text_antisymmetric(q, v);
                    lemma_version_text_transitive(ev, q, v);
                    lemma_version_text_transitive(v, q, ev);
                    lemma_version_text_antisymmetric(ev, v);
                    assert(version_cmp(rs@[p as int].version@, v) == Ordering::Equal);
                } else {
                    assert(rs@[w] == old_rs[w]);
                }
            }
            assert forall|i: int| 0 <= i < rs@.len() implies #[trigger] rs@[i] == e || old_rs.contains(rs@[i]) by {
                if i != p {
                    assert(rs@[i] == old_rs[i]);
                }
            }
            assert(rs@[p as int] == e);
        }
    } else {
        rs.insert(p, e);
        proof {
            assert(rs@[p as int] == e);
            assert forall|i: int| 0 <= i < rs@.len() && i != p implies #[trigger] rs@[i] == (if i < p {
                old_rs[i]
            } else {
                old_rs[i - 1]
            }) by {}
            if p < n {
                lemma_version_text_antisymmetric(ev, old_rs[p as int].version@);
            }
            assert forall|i: int, j: int| 0 <= i < j < rs@.len() implies version_cmp(
                #[trigger] rs@[i].version@,
                #[trigger] rs@[j].version@,
            ) == Ordering::Less by {
                if j == p {
                } else if i == p {
                    if j - 1 > p {
                        lemma_version_text_transitive(ev, old_rs[p as int].version@, old_rs[j - 1].version@);
                    }
                } else if i < p && j > p {
                    assert(version_cmp(old_rs[i].version@, ev) == Ordering::Less);
                    if j - 1 > p {
                        lemma_version_text_transitive(ev, old_rs[p as int].version@, old_rs[j - 1].version@);
                    }
                    lemma_version_text_transitive(old_rs[i].version@, ev, old_rs[j - 1].version@);
                }
            }
            assert forall|v: Seq<char>| has_version(old_rs, v) implies #[trigger] has_version(rs@, v) by {
                let w = choose|w: int| 0 <= w < old_rs.len() && version_cmp(#[trigger] old_rs[w].version@, v) == Ordering::Equal;
                if w < p {
                    assert(rs@[w] == old_rs[w]);
                } else {
                    assert(rs@[w + 1] == old_rs[w]);
                }
            }
            assert forall|i: int| 0 <= i < rs@.len() implies #[trigger] rs@[i] == e || old_rs.contains(rs@[i]) by {
                if i < p {
                    assert(rs@[i] == old_rs[i]);
                } else if i > p {
                    assert(rs@[i] == old_rs[i - 1]);
                }
            }
        }
    }
}

/// Stamps each release of a module, already in version order, with its
/// position as sort index and flags the last one as the newest.
pub fn update_derived_module_data(rs: &mut Vec<ReleaseEntry>)
    requires
        releases_ordered(old(rs)@),
    ensures
        releases_ordered(final(rs)@),
        final(rs)@.len() == old(rs)@.len(),
        forall|i: int| 0 <= i < final(rs)@.len() ==> (#[trigger] final(rs)@[i]).version == old(rs)@[i].version
            && final(rs)@[i].release == old(rs)@[i].release,
        derived_data_stamped(final(rs)@),
{
    let n = rs.len();
    let mut i: usize = 0;
    while i < n
        invariant
            i <= n,
            rs@.len() == n,
            n == old(rs)@.len(),
            forall|j: int| 0 <= j < n ==> (#[trigger] rs@[j]).version == old(rs)@[j].version
                && rs@[j].release == old(rs)@[j].release,
            forall|j: int| 0 <= j < i ==> (#[trigger] rs@[j]).sort_index == j && rs@[j].up_to_date == (j == n - 1),
        decreases n - i,
    {
        let ghost before = rs@;
        let mut e = rs.remove(i);
        e.sort_index = i;
        e.up_to_date = i + 1 == n;
        rs.insert(i, e);
        assert(rs@ =~= before.update(i as int, e));
        i = i + 1;
    }
    assert forall|a: int, b: int| 0 <= a < b < rs@.len() implies version_cmp(
        #[trigger] rs@[a].version@,
        #[trigger] rs@[b].version@,
    ) == Ordering::Less by {
        assert(rs@[a].version == old(rs)@[a].version);
        assert(rs@[b].version == old(rs)@[b].version);
    }
}

/// Rows for an ordered side list (tags, authors): each value with its
/// position in the list.
pub fn ordinal_rows(list: &Vec<String>) -> (rows: Vec<(usize, String)>)
    ensures
        rows@.len() == list@.len(),
        forall|i: int| 0 <= i < rows@.len() ==> #[trigger] rows@[i] == (i as usize, list@[i]),
{
    let mut rows: Vec<(usize, String)> = Vec::new();
    let mut i: usize = 0;
    while i < list.len()
        invariant
            i <= list@.len(),
            rows@.len() == i,
            forall|j: int| 0 <= j < i ==> #[trigger] rows@[j] == (j as usize, list@[j]),
        decreases list.len() - i,
    {
        rows.push((i, list[i].clone()));
        i = i + 1;
    }
    rows
}

/// A release stored under module `slug`: its document names that module,
/// its version is the document's, and the document is one of `all`.
pub open spec fn entry_ok(r: ReleaseEntry, slug: Seq<char>, all: Seq<RepoAsset>) -> bool {
    &&& r.release.name@ == slug
    &&& r.version@ == r.release.version@
    &&& all.contains(RepoAsset::Release(r.release))
}

/// A module whose releases are in version order and all belong to it.
pub open spec fn module_ok(m: ModuleEntry, all: Seq<RepoAsset>) -> bool {
    &&& releases_ordered(m.releases@)
    &&& forall|p: int| 0 <= p < m.releases@.len() ==> entry_ok(#[trigger] m.releases@[p], m.slug@, all)
}

/// No two modules share a slug.
pub open spec fn slugs_distinct(ms: Seq<ModuleEntry>) -> bool {
    forall|i: int, j: int| 0 <= i < j < ms.len() ==> (#[trigger] ms[i]).slug@ != (#[trigger] ms[j]).slug@
}

/// Some module named `slug` has a release of a version equal to `v`.
pub open spec fn release_present(ms: Seq<ModuleEntry>, slug: Seq<char>, v: Seq<char>) -> bool {
    exists|k: int| 0 <= k < ms.len() && (#[trigger] ms[k]).slug@ == slug && has_version(ms[k].releases@, v)
}

/// The index of the module named `slug`, if there is one.
fn find_module(ms: &Vec<ModuleEntry>, slug: &str) -> (r: Option<usize>)
    ensures
        r matches Some(k) ==> k < ms@.len() && ms@[k as int].slug@ == slug@,
        r is None ==> forall|k: int| 0 <= k < ms@.len() ==> (#[trigger] ms@[k]).slug@ != slug@,
{
    let mut k: usize = 0;
    while k < ms.len()
        invariant
            k <= ms@.len(),
            forall|j: int| 0 <= j < k ==> (#[trigger] ms@[j]).slug@ != slug@,
        decreases ms.len() - k,
    {
        if crate::text::str_eq(ms[k].slug.as_str(), slug) {
            return Some(k);
        }
        k = k + 1;
    }
    None
}

/// Files a release under its module, making the module if it is new.
fn add_release(ms: &mut Vec<ModuleEntry>, json: JsonModule, Ghost(all): Ghost<Seq<RepoAsset>>)
    requires
        all.contains(RepoAsset::Release(json)),
        slugs_distinct(old(ms)@),
        forall|k: int| 0 <= k < old(ms)@.len() ==> module_ok(#[trigger] old(ms)@[k], all),
    ensures
        slugs_distinct(final(ms)@),
        forall|k: int| 0 <= k < final(ms)@.len() ==> module_ok(#[trigger] final(ms)@[k], all),
        final(ms)@.len() >= old(ms)@.len(),
        forall|k: int| 0 <= k < old(ms)@.len() ==> (#[trigger] final(ms)@[k]).slug == old(ms)@[k].slug
            && final(ms)@[k].download_count == old(ms)@[k].download_count,
        forall|k: int, v: Seq<char>| 0 <= k < old(ms)@.len() && has_version(old(ms)@[k].releases@, v)
            ==> #[trigger] has_version(final(ms)@[k].releases@, v),
        forall|k: int| old(ms)@.len() <= k < final(ms)@.len() ==> (#[trigger] final(ms)@[k]).slug@ == json.name@
            && final(ms)@[k].download_count == 0 && (forall|j: int| 0 <= j < old(ms)@.len() ==> old(ms)@[j].slug@ != json.name@),
        release_present(final(ms)@, json.name@, json.version@),
{
    let version = ModuleVersion::parse(json.version.clone());
    let found = find_module(ms, json.name.as_str());
    let k = match found {
        Some(k) => k,
        None => {
            let slug = json.name.clone();
            ms.push(ModuleEntry { slug, download_count: 0, releases: Vec::new() });
            proof {
                assert forall|i: int, j: int| 0 <= i < j < ms@.len() implies (#[trigger] ms@[i]).slug@ != (#[trigger] ms@[j]).slug@ by {
                    if j == ms@.len() - 1 {
                        assert(ms@[i] == old(ms)@[i]);
                    } else {
                        assert(ms@[i] == old(ms)@[i]);
                        assert(ms@[j] == old(ms)@[j]);
                    }
                }
                assert(module_ok(ms@[ms@.len() - 1], all));
            }
            ms.len() - 1
        },
    };
    let ghost mid = ms@;
    let ghost ev = version@;
    let mut m = ms.remove(k);
    let entry = ReleaseEntry { version, release: json, sort_index: 0, up_to_date: false };
    let ghost old_rs = m.releases@;
    insert_release(&mut m.releases, entry);
    proof {
        assert(entry_ok(entry, m.slug@, all));
        assert forall|p: int| 0 <= p < m.releases@.len() implies entry_ok(#[trigger] m.releases@[p], m.slug@, all) by {
            if m.releases@[p] != entry {
                let q = choose|q: int| 0 <= q < old_rs.len() && old_rs[q] == m.releases@[p];
                assert(entry_ok(old_rs[q], m.slug@, all));
            }
        }
        let p = choose|p: int| 0 <= p < m.releases@.len() && m.releases@[p] == entry;
        crate::version::lemma_version_text_antisymmetric(ev, ev);
        assert(version_cmp(m.releases@[p].version@, json.version@) == Ordering::Equal);
        assert(has_version(m.releases@, json.version@));
    }
    ms.insert(k, m);
    proof {
        assert(ms@ =~= mid.update(k as int, m));
        assert(release_present(ms@, json.name@, json.version@)) by {
            assert(ms@[k as int].slug@ == json.name@);
        }
        assert forall|i: int, j: int| 0 <= i < j < ms@.len() implies (#[trigger] ms@[i]).slug@ != (#[trigger] ms@[j]).slug@ by {
            assert(mid[i].slug@ != mid[j].slug@);
        }
        assert forall|kk: int, v: Seq<char>| 0 <= kk < old(ms)@.len() && has_version(old(ms)@[kk].releases@, v)
            implies #[trigger] has_version(ms@[kk].releases@, v) by {
            if kk == k {
                assert(mid[kk] == old(ms)@[kk]);
            } else {
                assert(ms@[kk] == mid[kk]);
                assert(mid[kk] == old(ms)@[kk]);
            }
        }
    }
}

/// The last count that `l` gives for `slug`.
pub open spec fn last_count_in(l: Seq<DownloadCount>, slug: Seq<char>) -> Option<i32>
    decreases l.len(),
{
    if l.len() == 0 {
        None
    } else if l.last().slug@ == slug {
        Some(l.last().count)
    } else {
        last_count_in(l.drop_last(), slug)
    }
}

/// The last download count that `assets` give for `slug`.
pub open spec fn last_count(assets: Seq<RepoAsset>, slug: Seq<char>) -> Option<i32>
    decreases assets.len(),
{
    if assets.len() == 0 {
        None
    } else {
        let here = match assets.last() {
            RepoAsset::DownloadCounts(l) => last_count_in(l@, slug),
            _ => None,
        };
        match here {
            Some(c) => Some(c),
            None => last_count(assets.drop_last(), slug),
        }
    }
}

pub open spec fn count_or_zero(c: Option<i32>) -> i32 {
    match c {
        Some(c) => c,
        None => 0,
    }
}

/// All build records of `assets`, in order.
pub open spec fn builds_of(assets: Seq<RepoAsset>) -> Seq<BuildRecord>
    decreases assets.len(),
{
    if assets.len() == 0 {
        Seq::empty()
    } else {
        builds_of(assets.drop_last()) + match assets.last() {
            RepoAsset::Builds(l) => l@,
            _ => Seq::empty(),
        }
    }
}

/// All repository references of `assets`, in order.
pub open spec fn refs_of(assets: Seq<RepoAsset>) -> Seq<RepositoryRef>
    decreases assets.len(),
{
    if assets.len() == 0 {
        Seq::empty()
    } else {
        refs_of(assets.drop_last()) + match assets.last() {
            RepoAsset::RepositoryRefList(l) => l.repositories@,
            _ => Seq::empty(),
        }
    }
}

/// The asset names the module `slug`: a release of it, or a count for it.
pub open spec fn mentions(a: RepoAsset, slug: Seq<char>) -> bool {
    match a {
        RepoAsset::Release(j) => j.name@ == slug,
        RepoAsset::DownloadCounts(l) => exists|q: int| 0 <= q < l@.len() && (#[trigger] l@[q]).slug@ == slug,
        _ => false,
    }
}

/// Sets download counts on modules, making a module for a slug that has none.
fn apply_counts(ms: &mut Vec<ModuleEntry>, list: Vec<DownloadCount>, Ghost(all): Ghost<Seq<RepoAsset>>)
    requires
        slugs_distinct(old(ms)@),
        forall|k: int| 0 <= k < old(ms)@.len() ==> module_ok(#[trigger] old(ms)@[k], all),
    ensures
        slugs_distinct(final(ms)@),
        forall|k: int| 0 <= k < final(ms)@.len() ==> module_ok(#[trigger] final(ms)@[k], all),
        final(ms)@.len() >= old(ms)@.len(),
        forall|k: int| 0 <= k < old(ms)@.len() ==> (#[trigger] final(ms)@[k]).slug == old(ms)@[k].slug
            && final(ms)@[k].releases == old(ms)@[k].releases,
        forall|k: int| 0 <= k < final(ms)@.len() ==> (#[trigger] final(ms)@[k]).download_count == match last_count_in(list@, final(ms)@[k].slug@) {
            Some(c) => c,
            None => old(ms)@[k].download_count,
        },
        forall|k: int| old(ms)@.len() <= k < final(ms)@.len() ==> last_count_in(list@, (#[trigger] final(ms)@[k]).slug@) is Some
            && final(ms)@[k].releases@.len() == 0 && (forall|j: int| 0 <= j < old(ms)@.len() ==> old(ms)@[j].slug@ != final(ms)@[k].slug@),
        forall|q: int| 0 <= q < list@.len() ==> exists|k: int| 0 <= k < final(ms)@.len() && (#[trigger] final(ms)@[k]).slug@ == (#[trigger] list@[q]).slug@,
{
    let mut q: usize = 0;
    while q < list.len()
        invariant
            q <= list@.len(),
            slugs_distinct(ms@),
            forall|k: int| 0 <= k < ms@.len() ==> module_ok(#[trigger] ms@[k], all),
            ms@.len() >= old(ms)@.len(),
            forall|k: int| 0 <= k < old(ms)@.len() ==> (#[trigger] ms@[k]).slug == old(ms)@[k].slug
                && ms@[k].releases == old(ms)@[k].releases,
            forall|k: int| 0 <= k < ms@.len() ==> (#[trigger] ms@[k]).download_count == match last_count_in(list@.take(q as int), ms@[k].slug@) {
                Some(c) => c,
                None => old(ms)@[k].download_count,
            },
            forall|k: int| old(ms)@.len() <= k < ms@.len() ==> last_count_in(list@.take(q as int), (#[trigger] ms@[k]).slug@) is Some
                && ms@[k].releases@.len() == 0 && (forall|j: int| 0 <= j < old(ms)@.len() ==> old(ms)@[j].slug@ != ms@[k].slug@),
            forall|p: int| 0 <= p < q ==> exists|k: int| 0 <= k < ms@.len() && (#[trigger] ms@[k]).slug@ == (#[trigger] list@[p]).slug@,
        decreases list.len() - q,
    {
        let c = &list[q];
        let ghost before = ms@;
        let ghost cur = list@.take(q as int);
        let ghost next = list@.take(q + 1);
        assert(next.drop_last() =~= cur);
        assert(next.last() == list@[q as int]);
        match find_module(ms, c.slug.as_str()) {
            Some(k) => {
                let mut m = ms.remove(k);
                m.download_count = c.count;
                ms.insert(k, m);
                proof {
                    assert(ms@ =~= before.update(k as int, m));
                    assert forall|i: int, j: int| 0 <= i < j < ms@.len() implies (#[trigger] ms@[i]).slug@ != (#[trigger] ms@[j]).slug@ by {
                        assert(before[i].slug@ != before[j].slug@);
                    }
                    assert forall|p: int| 0 <= p < q + 1 implies exists|kk: int| 0 <= kk < ms@.len() && (#[trigger] ms@[kk]).slug@ == (#[trigger] list@[p]).slug@ by {
                        if p < q {
                            let kk = choose|kk: int| 0 <= kk < before.len() && (#[trigger] before[kk]).slug@ == list@[p].slug@;
                            assert(ms@[kk].slug@ == before[kk].slug@);
                        } else {
                            assert(ms@[k as int].slug@ == list@[p].slug@);
                        }
                    }
                }
            },
            None => {
                let slug = c.slug.clone();
                ms.push(ModuleEntry { slug, download_count: c.count, releases: Vec::new() });
                proof {
                    assert forall|i: int, j: int| 0 <= i < j < ms@.len() implies (#[trigger] ms@[i]).slug@ != (#[trigger] ms@[j]).slug@ by {
                        assert(ms@[i] == before[i]);
                        if j < before.len() {
                            assert(ms@[j] == before[j]);
                        }
                    }
                    assert(module_ok(ms@[ms@.len() - 1], all));
                    assert forall|p: int| 0 <= p < q + 1 implies exists|kk: int| 0 <= kk < ms@.len() && (#[trigger] ms@[kk]).slug@ == (#[trigger] list@[p]).slug@ by {
                        if p < q {
                            let kk = choose|kk: int| 0 <= kk < before.len() && (#[trigger] before[kk]).slug@ == list@[p].slug@;
                            assert(ms@[kk] == before[kk]);
                        } else {
                            assert(ms@[before.len() as int].slug@ == list@[p].slug@);
                        }
                    }
                    assert forall|k: int| old(ms)@.len() <= k < ms@.len() implies (forall|j: int| 0 <= j < old(ms)@.len() ==> old(ms)@[j].slug@ != (#[trigger] ms@[k]).slug@) by {
                        if k == before.len() {
                            assert forall|j: int| 0 <= j < old(ms)@.len() implies old(ms)@[j].slug@ != ms@[k].slug@ by {
                                assert(before[j].slug == old(ms)@[j].slug);
                            }
                        } else {
                            assert(ms@[k] == before[k]);
                        }
                    }
                }
            },
        }
        q = q + 1;
    }
    assert(list@.take(list@.len() as int) =~= list@);
}

/// What one ingest of a repository produces.
#[derive(Debug)]
pub struct RepoSnapshot {
    /// The repository's modules, each with its releases in version order.
    pub modules: Vec<ModuleEntry>,
    /// Build records, in the order they are to be stored; a later record for
    /// the same build replaces an earlier one.
    pub builds: Vec<BuildRecord>,
    /// Repository references, in the order they are to be stored; a later
    /// reference to the same url replaces an earlier one.
    pub repo_refs: Vec<RepositoryRef>,
}

/// The snapshot is what the assets describe: one module per slug; each release
/// filed under its module, in strictly increasing version order with derived
/// data stamped; every release document represented (a later document of an
/// equal version replacing an earlier one); download counts as last given;
/// nothing that no asset names; builds and references in order.
pub open spec fn snapshot_reflects(s: RepoSnapshot, all: Seq<RepoAsset>) -> bool {
    let ms = s.modules@;
    &&& slugs_distinct(ms)
    &&& forall|k: int| 0 <= k < ms.len() ==> module_ok(#[trigger] ms[k], all) && derived_data_stamped(ms[k].releases@)
    &&& forall|i: int| 0 <= i < all.len() && (#[trigger] all[i]) is Release ==> release_present(ms, all[i]->Release_0.name@, all[i]->Release_0.version@)
    &&& forall|k: int| 0 <= k < ms.len() ==> (#[trigger] ms[k]).download_count == count_or_zero(last_count(all, ms[k].slug@))
    &&& forall|k: int| 0 <= k < ms.len() ==> exists|i: int| 0 <= i < all.len() && mentions(#[trigger] all[i], (#[trigger] ms[k]).slug@)
    &&& forall|slug: Seq<char>| #[trigger] last_count(all, slug) is Some ==> exists|k: int| 0 <= k < ms.len() && (#[trigger] ms[k]).slug@ == slug
    &&& s.builds@ == builds_of(all)
    &&& s.repo_refs@ == refs_of(all)
}

/// The invariant of `build_snapshot` after the first `i` assets.
pub open spec fn partial_snapshot(ms: Seq<ModuleEntry>, all: Seq<RepoAsset>, i: int) -> bool {
    let done = all.take(i);
    &&& slugs_distinct(ms)
    &&& forall|k: int| 0 <= k < ms.len() ==> module_ok(#[trigger] ms[k], all)
    &&& forall|j: int| 0 <= j < i && (#[trigger] all[j]) is Release ==> release_present(ms, all[j]->Release_0.name@, all[j]->Release_0.version@)
    &&& forall|k: int| 0 <= k < ms.len() ==> (#[trigger] ms[k]).download_count == count_or_zero(last_count(done, ms[k].slug@))
    &&& forall|k: int| 0 <= k < ms.len() ==> exists|j: int| 0 <= j < i && mentions(#[trigger] all[j], (#[trigger] ms[k]).slug@)
    &&& forall|slug: Seq<char>| #[trigger] last_count(done, slug) is Some ==> exists|k: int| 0 <= k < ms.len() && (#[trigger] ms[k]).slug@ == slug
}

/// Turns the parsed assets of a repository into its snapshot: releases filed
/// under their modules (a release of a version equal to one already filed
/// replaces it), download counts set (making modules for slugs without
/// releases), builds and references collected, and every module's releases
/// stamped with their sort index and newest flag.
pub fn build_snapshot(assets: Vec<RepoAsset>) -> (s: RepoSnapshot)
    ensures
        snapshot_reflects(s, assets@),
{
    let ghost all = assets@;
    let mut rest = assets;
    let mut ms: Vec<ModuleEntry> = Vec::new();
    let mut builds: Vec<BuildRecord> = Vec::new();
    let mut refs: Vec<RepositoryRef> = Vec::new();
    let ghost mut i: int = 0;
    assert(all.take(0) =~= Seq::<RepoAsset>::empty());
    assert(rest@ =~= all.skip(0));
    while rest.len() > 0
        invariant
            0 <= i <= all.len(),
            rest@ == all.skip(i),
            partial_snapshot(ms@, all, i),
            builds@ == builds_of(all.take(i)),
            refs@ == refs_of(all.take(i)),
        decreases rest@.len(),
    {
        let a = rest.remove(0);
        let ghost before = ms@;
        let ghost done = all.take(i);
        let ghost next = all.take(i + 1);
        proof {
            assert(a == all[i]);
            assert(next.drop_last() =~= done);
            assert(next.last() == all[i]);
            assert(rest@ =~= all.skip(i + 1));
            assert(all.contains(a));
        }
        match a {
            RepoAsset::Release(json) => {
                let ghost j = json;
                add_release(&mut ms, json, Ghost(all));
                proof {
                    assert forall|k: int| 0 <= k < ms@.len() implies (#[trigger] ms@[k]).download_count == count_or_zero(last_count(next, ms@[k].slug@)) by {
                        if k >= before.len() {
                            if last_count(done, ms@[k].slug@) is Some {
                                let kk = choose|kk: int| 0 <= kk < before.len() && (#[trigger] before[kk]).slug@ == ms@[k].slug@;
                            }
                        }
                    }
                    assert forall|jj: int| 0 <= jj < i + 1 && (#[trigger] all[jj]) is Release implies release_present(ms@, all[jj]->Release_0.name@, all[jj]->Release_0.version@) by {
                        if jj < i {
                            let kk = choose|kk: int| 0 <= kk < before.len() && (#[trigger] before[kk]).slug@ == all[jj]->Release_0.name@ && has_version(before[kk].releases@, all[jj]->Release_0.version@);
                            assert(has_version(ms@[kk].releases@, all[jj]->Release_0.version@));
                            assert(ms@[kk].slug@ == all[jj]->Release_0.name@);
                        }
                    }
                    assert forall|k: int| 0 <= k < ms@.len() implies exists|jj: int| 0 <= jj < i + 1 && mentions(#[trigger] all[jj], (#[trigger] ms@[k]).slug@) by {
                        if k < before.len() {
                            let jj = choose|jj: int| 0 <= jj < i && mentions(#[trigger] all[jj], before[k].slug@);
                            assert(mentions(all[jj], ms@[k].slug@));
                        } else {
                            assert(mentions(all[i], ms@[k].slug@));
                        }
                    }
                    assert forall|slug: Seq<char>| #[trigger] last_count(next, slug) is Some implies exists|k: int| 0 <= k < ms@.len() && (#[trigger] ms@[k]).slug@ == slug by {
                        assert(last_count(next, slug) == last_count(done, slug));
                        let kk = choose|kk: int| 0 <= kk < before.len() && (#[trigger] before[kk]).slug@ == slug;
                        assert(ms@[kk].slug@ == slug);
                    }
                }
            },
            RepoAsset::DownloadCounts(list) => {
                let ghost l = list@;
                apply_counts(&mut ms, list, Ghost(all));
                proof {
                    assert forall|jj: int| 0 <= jj < i + 1 && (#[trigger] all[jj]) is Release implies release_present(ms@, all[jj]->Release_0.name@, all[jj]->Release_0.version@) by {
                        if jj < i {
                            let kk = choose|kk: int| 0 <= kk < before.len() && (#[trigger] before[kk]).slug@ == all[jj]->Release_0.name@ && has_version(before[kk].releases@, all[jj]->Release_0.version@);
                            assert(ms@[kk].releases == before[kk].releases);
                            assert(ms@[kk].slug == before[kk].slug);
                        }
                    }
                    assert forall|k: int| 0 <= k < ms@.len() implies (#[trigger] ms@[k]).download_count == count_or_zero(last_count(next, ms@[k].slug@)) by {
                        if k >= before.len() {
                            assert(last_count_in(l, ms@[k].slug@) is Some);
                        }
                    }
                    assert forall|k: int| 0 <= k < ms@.len() implies exists|jj: int| 0 <= jj < i + 1 && mentions(#[trigger] all[jj], (#[trigger] ms@[k]).slug@) by {
                        if k < before.len() {
                            let jj = choose|jj: int| 0 <= jj < i && mentions(#[trigger] all[jj], before[k].slug@);
                            assert(mentions(all[jj], ms@[k].slug@));
                        } else {
                            lemma_last_count_in_some(l, ms@[k].slug@);
                            assert(mentions(all[i], ms@[k].slug@));
                        }
                    }
                    assert forall|slug: Seq<char>| #[trigger] last_count(next, slug) is Some implies exists|k: int| 0 <= k < ms@.len() && (#[trigger] ms@[k]).slug@ == slug by {
                        if last_count_in(l, slug) is Some {
                            lemma_last_count_in_some(l, slug);
                            let q = choose|q: int| 0 <= q < l.len() && l[q].slug@ == slug;
                            let kk = choose|kk: int| 0 <= kk < ms@.len() && (#[trigger] ms@[kk]).slug@ == (#[trigger] l[q]).slug@;
                        } else {
                            assert(last_count(next, slug) == last_count(done, slug));
                            let kk = choose|kk: int| 0 <= kk < before.len() && (#[trigger] before[kk]).slug@ == slug;
                            assert(ms@[kk].slug@ == slug);
                        }
                    }
                }
            },
            RepoAsset::Builds(list) => {
                let mut list = list;
                builds.append(&mut list);
                proof {
                    lemma_other_asset_keeps(ms@, all, i);
                }
            },
            RepoAsset::RepositoryRefList(l) => {
                let mut list = l.repositories;
                refs.append(&mut list);
                proof {
                    lemma_other_asset_keeps(ms@, all, i);
                }
            },
        }
        proof {
            i = i + 1;
        }
    }
    proof {
        assert(all.take(i) =~= all);
    }
    let n = ms.len();
    let mut k: usize = 0;
    while k < n
        invariant
            k <= n,
            n == ms@.len(),
            partial_snapshot(ms@, all, all.len() as int),
            all.take(all.len() as int) == all,
            forall|j: int| 0 <= j < k ==> derived_data_stamped((#[trigger] ms@[j]).releases@),
        decreases n - k,
    {
        let ghost before = ms@;
        let mut m = ms.remove(k);
        let ghost old_rs = m.releases@;
        update_derived_module_data(&mut m.releases);
        proof {
            assert(module_ok(m, all)) by {
                assert forall|p: int| 0 <= p < m.releases@.len() implies entry_ok(#[trigger] m.releases@[p], m.slug@, all) by {
                    assert(m.releases@[p].version == old_rs[p].version);
                    assert(entry_ok(old_rs[p], m.slug@, all));
                }
                assert forall|a: int, b: int| 0 <= a < b < m.releases@.len() implies version_cmp(#[trigger] m.releases@[a].version@, #[trigger] m.releases@[b].version@) == Ordering::Less by {
                    assert(m.releases@[a].version == old_rs[a].version);
                    assert(m.releases@[b].version == old_rs[b].version);
                }
            }
            assert forall|v: Seq<char>| has_version(old_rs, v) implies #[trigger] has_version(m.releases@, v) by {
                let w = choose|w: int| 0 <= w < old_rs.len() && version_cmp(#[trigger] old_rs[w].version@, v) == Ordering::Equal;
                assert(m.releases@[w].version == old_rs[w].version);
            }
        }
        ms.insert(k, m);
        proof {
            assert(ms@ =~= before.update(k as int, m));
            let ms2 = ms@;
            assert forall|a: int, b: int| 0 <= a < b < ms2.len() implies (#[trigger] ms2[a]).slug@ != (#[trigger] ms2[b]).slug@ by {
                assert(before[a].slug@ != before[b].slug@);
            }
            assert forall|jj: int| 0 <= jj < all.len() && (#[trigger] all[jj]) is Release implies release_present(ms2, all[jj]->Release_0.name@, all[jj]->Release_0.version@) by {
                let kk = choose|kk: int| 0 <= kk < before.len() && (#[trigger] before[kk]).slug@ == all[jj]->Release_0.name@ && has_version(before[kk].releases@, all[jj]->Release_0.version@);
                assert(ms2[kk].slug@ == all[jj]->Release_0.name@);
                assert(has_version(ms2[kk].releases@, all[jj]->Release_0.version@));
            }
            assert forall|kk: int| 0 <= kk < ms2.len() implies exists|jj: int| 0 <= jj < all.len() && mentions(#[trigger] all[jj], (#[trigger] ms2[kk]).slug@) by {
                let jj = choose|jj: int| 0 <= jj < all.len() && mentions(#[trigger] all[jj], before[kk].slug@);
                assert(mentions(all[jj], ms2[kk].slug@));
            }
            assert forall|slug: Seq<char>| #[trigger] last_count(all.take(all.len() as int), slug) is Some implies exists|kk: int| 0 <= kk < ms2.len() && (#[trigger] ms2[kk]).slug@ == slug by {
                let kk = choose|kk: int| 0 <= kk < before.len() && (#[trigger] before[kk]).slug@ == slug;
                assert(ms2[kk].slug@ == slug);
            }
        }
        k = k + 1;
    }
    RepoSnapshot { modules: ms, builds, repo_refs: refs }
}

proof fn lemma_other_asset_keeps(ms: Seq<ModuleEntry>, all: Seq<RepoAsset>, i: int)
    requires
        0 <= i < all.len(),
        partial_snapshot(ms, all, i),
        all[i] is Builds || all[i] is RepositoryRefList,
    ensures
        partial_snapshot(ms, all, i + 1),
{
    let done = all.take(i);
    let next = all.take(i + 1);
    assert(next.drop_last() =~= done);
    assert(next.last() == all[i]);
    assert forall|slug: Seq<char>| #[trigger] last_count(next, slug) == last_count(done, slug) by {}
    assert forall|k: int| 0 <= k < ms.len() implies exists|j: int| 0 <= j < i + 1 && mentions(#[trigger] all[j], (#[trigger] ms[k]).slug@) by {
        let j = choose|j: int| 0 <= j < i && mentions(#[trigger] all[j], ms[k].slug@);
    }
    assert forall|slug: Seq<char>| #[trigger] last_count(next, slug) is Some implies exists|k: int| 0 <= k < ms.len() && (#[trigger] ms[k]).slug@ == slug by {
        assert(last_count(next, slug) == last_count(done, slug));
    }
}

proof fn lemma_last_count_in_some(l: Seq<DownloadCount>, slug: Seq<char>)
    ensures
        last_count_in(l, slug) is Some ==> exists|q: int| 0 <= q < l.len() && (#[trigger] l[q]).slug@ == slug,
    decreases l.len(),
{
    if l.len() > 0 && l.last().slug@ != slug {
        lemma_last_count_in_some(l.drop_last(), slug);
        if last_count_in(l, slug) is Some {
            let q = choose|q: int| 0 <= q < l.drop_last().len() && (#[trigger] l.drop_last()[q]).slug@ == slug;
            assert(l[q] == l.drop_last()[q]);
        }
    } else if l.len() > 0 {
        assert(l[l.len() - 1].slug@ == slug);
    }
}

} // verus!
