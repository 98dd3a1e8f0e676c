use camrete::asset::{InMemoryAssetLoader, RepoAssetBuf, RepoAssetVariant};

#[test]
fn asset_from_path() {
    let p1 = "./repo/Parallax/Parallax-0.1.1.ckan";
    let p2 = "CKAN-meta-master/repositories.json";
    let p3 = "builds.json";
    let p4 = "/absolute/path/to/download_counts.json";

    assert_eq!(
        RepoAssetVariant::from_path(p1).unwrap(),
        RepoAssetVariant::Release
    );
    assert_eq!(
        RepoAssetVariant::from_path(p2).unwrap(),
        RepoAssetVariant::RepositoryRefList
    );
    assert_eq!(
        RepoAssetVariant::from_path(p3).unwrap(),
        RepoAssetVariant::Builds
    );
    assert_eq!(
        RepoAssetVariant::from_path(p4).unwrap(),
        RepoAssetVariant::DownloadCounts
    );
}

#[test]
fn frozen_is_not_an_asset() {
    let p1 = "OKM-3.frozen";
    assert!(RepoAssetVariant::from_path(p1).is_none());
}

#[test]
fn extensionless_is_not_an_asset() {
    let p1 = ".DS_Store";
    assert!(RepoAssetVariant::from_path(p1).is_none());
}

#[test]
fn folders_are_not_assets() {
    let p1 = "/repo/4kSPExpanded";
    assert!(RepoAssetVariant::from_path(p1).is_none());
}

#[test]
fn paths_ending_in_a_separator_are_not_assets() {
    assert!(RepoAssetVariant::from_path("repo/builds.json/").is_none());
    assert!(RepoAssetVariant::from_path("repo/Foo.ckan/").is_none());
    assert!(RepoAssetVariant::from_path("").is_none());
    assert!(RepoAssetVariant::from_path("a/xbuilds.json").is_none());
    assert_eq!(
        RepoAssetVariant::from_path("dir\\Foo-1.0.ckan"),
        Some(RepoAssetVariant::Release)
    );
    assert_eq!(
        RepoAssetVariant::from_path(".ckan"),
        Some(RepoAssetVariant::Release)
    );
}

#[test]
fn archive_entries_are_kept_only_when_they_are_assets() {
    let kept = RepoAssetBuf::from_entry("ksp/Foo/Foo-1.0.ckan".to_string(), vec![1, 2, 3]).unwrap();
    assert_eq!(kept.variant, RepoAssetVariant::Release);
    assert_eq!(kept.path, "ksp/Foo/Foo-1.0.ckan");
    assert_eq!(kept.data, vec![1, 2, 3]);
    assert!(RepoAssetBuf::from_entry("ksp/Foo/".to_string(), vec![]).is_none());

    let loader = InMemoryAssetLoader::from(vec![kept.clone()]);
    let assets = loader.into_assets();
    assert_eq!(assets.len(), 1);
    assert_eq!(assets[0].path, kept.path);
}
